//! What holds of the children that a traversal selects.

use vstd::prelude::*;

use crate::context::SharedStyleContext;
use crate::dom::{DomView, NodeId};
use crate::restyle_hints::RestyleHint;
use crate::traversal::{CullReason, TraverseChildren};

verus! {

/// One step of a walk over the children of an element.
pub struct WalkStep {
    /// The tree that the step looks at.
    pub dom: DomView,
    /// What the traversal may answer for a text node of that tree.
    pub text_answers: spec_fn(NodeId, bool) -> bool,
    /// The walk before the step.
    pub before: TraverseChildren,
    /// The walk after the step.
    pub after: TraverseChildren,
    /// The child that is selected, unless the walk is over.
    pub kid: Option<NodeId>,
}

impl WalkStep {
    /// Whether the step is one that a walk can take.
    pub open spec fn is_taken(self, shared: SharedStyleContext) -> bool {
        &&& self.before.fits(self.dom)
        &&& self.before.goes_on(self.dom, shared, self.after, self.kid, self.text_answers)
    }

    /// Whether the step decides about the child at a position.
    pub open spec fn judges(self, position: int) -> bool {
        self.before.position <= position < self.after.position
    }

    /// The tree after the step.
    pub open spec fn tree_after(self) -> DomView {
        match self.kid {
            Some(kid) => self.dom.marked_for(self.before.parent, kid),
            None => self.dom,
        }
    }
}

/// Whether `steps` are a whole walk over the children of `parent`. Between two steps anything
/// may happen to the style data and the dirty bits of the tree, but not to its shape.
pub open spec fn is_walk(
    dom: DomView,
    shared: SharedStyleContext,
    parent: NodeId,
    steps: Seq<WalkStep>,
) -> bool {
    &&& steps.len() > 0
    &&& steps[0].before == TraverseChildren::begun(parent, None)
    &&& steps.last().kid is None
    &&& forall|i: int|
        0 <= i < steps.len() ==> (#[trigger] steps[i]).is_taken(shared) && steps[i].dom.tree
            == dom.tree
    &&& forall|i: int| 0 < i < steps.len() ==> #[trigger] walks_on(steps, i)
}

/// Whether a step begins where the one before it ended.
pub open spec fn walks_on(steps: Seq<WalkStep>, i: int) -> bool {
    steps[i].before == steps[i - 1].after
}

/// Whether nothing happens to the tree between the steps of a walk that begins with `dom`.
pub open spec fn is_undisturbed(dom: DomView, steps: Seq<WalkStep>) -> bool {
    &&& steps[0].dom == dom
    &&& forall|i: int| 0 < i < steps.len() ==> #[trigger] sees_what_was_left(steps, i)
}

/// Whether a step looks at the tree that the one before it left.
pub open spec fn sees_what_was_left(steps: Seq<WalkStep>, i: int) -> bool {
    steps[i].dom == steps[i - 1].tree_after()
}

/// A walk stays with its parent and never goes back, and is over when it is past the last
/// child.
proof fn lemma_walk_goes_forward(
    dom: DomView,
    shared: SharedStyleContext,
    parent: NodeId,
    steps: Seq<WalkStep>,
    earlier: int,
    later: int,
)
    requires
        is_walk(dom, shared, parent, steps),
        0 <= earlier <= later < steps.len(),
    ensures
        steps[later].before.parent == parent,
        steps[later].before.over ==> steps[later].before.position == dom.children(parent).len(),
        steps[earlier].before.position <= steps[later].before.position,
        earlier < later ==> steps[earlier].after.position <= steps[later].before.position,
    decreases later,
{
    assert(steps[later].is_taken(shared));
    if later > 0 {
        assert(walks_on(steps, later));
        lemma_walk_goes_forward(dom, shared, parent, steps, 0, later - 1);
        assert(steps[later - 1].is_taken(shared));
        if earlier < later {
            lemma_walk_goes_forward(dom, shared, parent, steps, earlier, later - 1);
        }
    }
}

/// A walk that has come up to some step has judged every child before that step.
proof fn lemma_judged_so_far(
    dom: DomView,
    shared: SharedStyleContext,
    parent: NodeId,
    steps: Seq<WalkStep>,
    last: int,
    position: int,
)
    requires
        is_walk(dom, shared, parent, steps),
        0 <= last < steps.len(),
        0 <= position < steps[last].after.position,
    ensures
        exists|i: int| 0 <= i <= last && (#[trigger] steps[i]).judges(position),
    decreases last,
{
    assert(steps[last].is_taken(shared));
    if steps[last].before.position <= position {
        assert(steps[last].judges(position));
    } else {
        assert(last > 0);
        assert(walks_on(steps, last));
        lemma_judged_so_far(dom, shared, parent, steps, last - 1, position);
    }
}

/// In a whole walk every child is judged in one step, and in one only.
pub proof fn law_every_child_is_judged_once(
    dom: DomView,
    shared: SharedStyleContext,
    parent: NodeId,
    steps: Seq<WalkStep>,
    position: int,
)
    requires
        is_walk(dom, shared, parent, steps),
        0 <= position < dom.children(parent).len(),
    ensures
        exists|i: int| 0 <= i < steps.len() && (#[trigger] steps[i]).judges(position),
        forall|i: int, k: int|
            0 <= i < steps.len() && 0 <= k < steps.len() && (#[trigger] steps[i]).judges(position)
                && (#[trigger] steps[k]).judges(position) ==> i == k,
{
    let last = steps.len() - 1;
    lemma_walk_goes_forward(dom, shared, parent, steps, last, last);
    assert(steps[last].is_taken(shared));
    assert(steps[last].after.position == dom.children(parent).len());
    lemma_judged_so_far(dom, shared, parent, steps, last, position);
    assert forall|i: int, k: int|
        0 <= i < steps.len() && 0 <= k < steps.len() && (#[trigger] steps[i]).judges(position) && (
        #[trigger] steps[k]).judges(position) implies i == k by {
        if i < k {
            lemma_walk_goes_forward(dom, shared, parent, steps, i, k);
        } else if k < i {
            lemma_walk_goes_forward(dom, shared, parent, steps, k, i);
        }
    }
}

/// An element among the children is selected by the step that judges it exactly if it, or
/// something below it, has to be visited as the tree then stands.
pub proof fn law_elements_in_need_are_selected(
    step: WalkStep,
    shared: SharedStyleContext,
    position: int,
)
    requires
        step.is_taken(shared),
        step.judges(position),
        step.dom.has_element(step.dom.children(step.before.parent)[position]),
    ensures
        ({
            let child = step.dom.children(step.before.parent)[position];
            (step.kid == Some(child)) == step.dom.element_needs_traversal(shared, child)
        }),
{
    let kids = step.dom.children(step.before.parent);
    let child = kids[position];
    if step.kid is Some {
        assert(kids.no_duplicates());
        if position < step.after.position - 1 {
            assert(kids[step.after.position - 1] != kids[position]);
        }
    }
}

/// The selected children are children, come in document order, and come once each.
pub proof fn law_selection_keeps_document_order(
    dom: DomView,
    shared: SharedStyleContext,
    parent: NodeId,
    steps: Seq<WalkStep>,
    earlier: int,
    later: int,
)
    requires
        is_walk(dom, shared, parent, steps),
        0 <= earlier < later < steps.len(),
        steps[earlier].kid is Some,
        steps[later].kid is Some,
    ensures
        ({
            let kids = dom.children(parent);
            let (first, second) = (steps[earlier].kid->0, steps[later].kid->0);
            &&& kids.contains(first)
            &&& kids.contains(second)
            &&& kids.index_of(first) < kids.index_of(second)
        }),
{
    let kids = dom.children(parent);
    lemma_walk_goes_forward(dom, shared, parent, steps, 0, earlier);
    lemma_walk_goes_forward(dom, shared, parent, steps, earlier, later);
    assert(steps[earlier].is_taken(shared) && steps[later].is_taken(shared));
    assert(steps[earlier].dom.children(parent).no_duplicates());
    let (i, k) = (steps[earlier].after.position - 1, steps[later].after.position - 1);
    assert(kids[i] == steps[earlier].kid->0 && kids[k] == steps[later].kid->0);
    assert(kids.index_of(kids[i]) == i && kids.index_of(kids[k]) == k);
}

/// Non-incremental layout visits every node: each step selects the very next child.
pub proof fn law_nonincremental_layout_selects_all(step: WalkStep, shared: SharedStyleContext)
    requires
        step.is_taken(shared),
        shared.visits_everything(),
        !step.before.over,
        step.before.position < step.dom.children(step.before.parent).len(),
    ensures
        step.kid == Some(step.dom.children(step.before.parent)[step.before.position as int]),
        step.after.position == step.before.position + 1,
{
    let first = step.dom.children(step.before.parent)[step.before.position as int];
    assert(!crate::traversal::is_verdict(step.dom, shared, first, false, step.text_answers));
}

/// If a styled child is selected, its parent is marked as having dirty descendants, and so a
/// later traversal finds its way to the child again. Nothing but that mark changes.
pub proof fn law_selection_marks_the_parent(step: WalkStep, shared: SharedStyleContext)
    requires
        step.is_taken(shared),
        step.kid is Some,
        step.dom.styled(step.kid->0),
    ensures
        ({
            let parent = step.before.parent;
            let after = step.dom.marked_for(parent, step.kid->0);
            &&& after == step.dom.with_dirty(parent, true)
            &&& after.element_needs_traversal(shared, parent)
        }),
{
}

/// A text node among the children is selected by the step that judges it exactly as the
/// traversal answers for it, unless every node is visited.
pub proof fn law_text_nodes_are_selected_as_answered(
    step: WalkStep,
    shared: SharedStyleContext,
    position: int,
)
    requires
        step.is_taken(shared),
        step.judges(position),
        !step.dom.has_element(step.dom.children(step.before.parent)[position]),
    ensures
        ({
            let child = step.dom.children(step.before.parent)[position];
            if shared.visits_everything() {
                step.kid == Some(child)
            } else {
                (step.text_answers)(child, step.kid == Some(child))
            }
        }),
{
    let kids = step.dom.children(step.before.parent);
    let child = kids[position];
    if step.kid is Some {
        assert(kids.no_duplicates());
        if position < step.after.position - 1 {
            assert(kids[step.after.position - 1] != kids[position]);
        }
    }
}

/// Whether a step selects a child that is styled in the tree `dom`.
spec fn selects_styled(dom: DomView, step: WalkStep) -> bool {
    step.kid is Some && dom.styled(step.kid->0)
}

/// Whether one of the first `count` steps selects a child that is styled in the tree `dom`.
spec fn some_selects_styled(dom: DomView, steps: Seq<WalkStep>, count: int) -> bool
    decreases count,
{
    count > 0 && (selects_styled(dom, steps[count - 1]) || some_selects_styled(
        dom,
        steps,
        count - 1,
    ))
}

/// The tree, with the mark of the parent if it is called for.
spec fn marked_if(dom: DomView, parent: NodeId, marked: bool) -> DomView {
    if marked {
        dom.with_dirty(parent, true)
    } else {
        dom
    }
}

/// If one of the first steps selects a styled child, some step does.
proof fn lemma_some_selects_styled(dom: DomView, steps: Seq<WalkStep>, count: int)
    requires
        0 <= count <= steps.len(),
    ensures
        some_selects_styled(dom, steps, count) == exists|i: int|
            0 <= i < count && selects_styled(dom, #[trigger] steps[i]),
    decreases count,
{
    if count > 0 {
        lemma_some_selects_styled(dom, steps, count - 1);
        if selects_styled(dom, steps[count - 1]) {
            assert(some_selects_styled(dom, steps, count));
        } else if exists|i: int| 0 <= i < count && selects_styled(dom, #[trigger] steps[i]) {
            let i = choose|i: int| 0 <= i < count && selects_styled(dom, #[trigger] steps[i]);
            assert(i < count - 1);
        }
    }
}

/// What a step that sees the tree with or without the mark of the parent does to it.
proof fn lemma_step_marks(dom: DomView, parent: NodeId, step: WalkStep, marked: bool)
    requires
        dom.well_formed(),
        dom.has(parent),
        step.before.parent == parent,
        step.dom == marked_if(dom, parent, marked),
    ensures
        step.tree_after() == marked_if(dom, parent, selects_styled(dom, step) || marked),
{
    assert(dom.with_dirty(parent, true).with_dirty(parent, true) =~= dom.with_dirty(parent, true));
    if let Some(kid) = step.kid {
        assert(step.dom.styled(kid) == dom.styled(kid));
    }
}

/// The tree in the course of an undisturbed walk: only the mark of the parent may be new, and
/// it is called for exactly if a styled child has been selected.
proof fn lemma_undisturbed_so_far(
    dom: DomView,
    shared: SharedStyleContext,
    parent: NodeId,
    steps: Seq<WalkStep>,
    last: int,
)
    requires
        is_walk(dom, shared, parent, steps),
        is_undisturbed(dom, steps),
        0 <= last < steps.len(),
    ensures
        steps[last].tree_after() == marked_if(
            dom,
            parent,
            some_selects_styled(dom, steps, last + 1),
        ),
        steps[last].dom == marked_if(dom, parent, some_selects_styled(dom, steps, last)),
    decreases last,
{
    if last > 0 {
        lemma_undisturbed_so_far(dom, shared, parent, steps, last - 1);
        assert(sees_what_was_left(steps, last));
    }
    assert(steps[0].is_taken(shared));
    lemma_walk_goes_forward(dom, shared, parent, steps, last, last);
    lemma_step_marks(dom, parent, steps[last], some_selects_styled(dom, steps, last));
}

/// Whether a child of `parent` is styled and has to be visited.
pub open spec fn has_styled_child_in_need(
    dom: DomView,
    shared: SharedStyleContext,
    parent: NodeId,
) -> bool {
    exists|j: int|
        0 <= j < dom.children(parent).len() && is_styled_and_in_need(
            dom,
            shared,
            #[trigger] dom.children(parent)[j],
        )
}

/// Whether an element is styled and has to be visited.
pub open spec fn is_styled_and_in_need(
    dom: DomView,
    shared: SharedStyleContext,
    element: NodeId,
) -> bool {
    dom.styled(element) && dom.element_needs_traversal(shared, element)
}

/// After a whole walk that nothing disturbs, the parent is marked as having dirty
/// descendants exactly if it was before or some styled child has to be visited. Nothing else
/// has changed.
pub proof fn law_walk_marks_the_parent(
    dom: DomView,
    shared: SharedStyleContext,
    parent: NodeId,
    steps: Seq<WalkStep>,
)
    requires
        is_walk(dom, shared, parent, steps),
        is_undisturbed(dom, steps),
    ensures
        ({
            let after = steps.last().tree_after();
            &&& after == if has_styled_child_in_need(dom, shared, parent) {
                dom.with_dirty(parent, true)
            } else {
                dom
            }
            &&& after.dirty_of(parent) == (dom.dirty_of(parent) || has_styled_child_in_need(
                dom,
                shared,
                parent,
            ))
        }),
{
    let kids = dom.children(parent);
    let last = steps.len() - 1;
    assert(steps[0].is_taken(shared));
    lemma_undisturbed_so_far(dom, shared, parent, steps, last);
    lemma_some_selects_styled(dom, steps, last + 1);
    if has_styled_child_in_need(dom, shared, parent) {
        let j = choose|j: int|
            0 <= j < kids.len() && is_styled_and_in_need(dom, shared, #[trigger] kids[j]);
        law_every_child_is_judged_once(dom, shared, parent, steps, j);
        let i = choose|i: int| 0 <= i < steps.len() && (#[trigger] steps[i]).judges(j);
        lemma_step_sees_children(dom, shared, parent, steps, i, j);
        law_elements_in_need_are_selected(steps[i], shared, j);
        assert(selects_styled(dom, steps[i]));
    }
    if some_selects_styled(dom, steps, last + 1) {
        let i = choose|i: int| 0 <= i < last + 1 && selects_styled(dom, #[trigger] steps[i]);
        assert(steps[i].is_taken(shared));
        lemma_walk_goes_forward(dom, shared, parent, steps, i, i);
        let j = steps[i].after.position - 1;
        lemma_step_sees_children(dom, shared, parent, steps, i, j);
        law_elements_in_need_are_selected(steps[i], shared, j);
        assert(is_styled_and_in_need(dom, shared, kids[j]));
    }
}

/// A step of an undisturbed walk sees a styled child as it was at the beginning.
proof fn lemma_step_sees_children(
    dom: DomView,
    shared: SharedStyleContext,
    parent: NodeId,
    steps: Seq<WalkStep>,
    i: int,
    position: int,
)
    requires
        is_walk(dom, shared, parent, steps),
        is_undisturbed(dom, steps),
        0 <= i < steps.len(),
        0 <= position < dom.children(parent).len(),
        dom.styled(dom.children(parent)[position]),
    ensures
        ({
            let child = dom.children(parent)[position];
            &&& steps[i].before.parent == parent
            &&& steps[i].dom.children(parent) == dom.children(parent)
            &&& steps[i].dom.has_element(child)
            &&& steps[i].dom.styled(child)
            &&& steps[i].dom.element_needs_traversal(shared, child)
                == dom.element_needs_traversal(shared, child)
        }),
{
    let child = dom.children(parent)[position];
    let seen = steps[i].dom;
    assert(steps[i].is_taken(shared));
    assert(steps[0].is_taken(shared));
    lemma_walk_goes_forward(dom, shared, parent, steps, 0, i);
    lemma_undisturbed_so_far(dom, shared, parent, steps, i);
    assert(seen.data == dom.data && seen.tree == dom.tree);
    assert(parent < dom.children(parent)[position] < dom.len());
    assert(dom.data[child as int] is Some);
    assert(dom.tree[child as int].is_element);
}

/// Where there is a reason not to traverse the children, the walk is over from the start and
/// selects none.
pub proof fn law_culled_walk_selects_nothing(
    step: WalkStep,
    shared: SharedStyleContext,
    parent: NodeId,
    reason: CullReason,
)
    requires
        step.is_taken(shared),
        step.before == TraverseChildren::begun(parent, Some(reason)),
    ensures
        step.kid is None,
        step.after == step.before,
{
}

/// An element whose styles are missing or out of date is visited, once its snapshot, if it
/// had one, has been expanded. The converse does not hold: a hint for the descendants alone
/// asks for a visit too.
pub proof fn law_stale_element_is_visited(
    dom: DomView,
    shared: SharedStyleContext,
    element: NodeId,
)
    requires
        dom.data_of(element) is Some ==> {
            &&& !dom.data_of(element)->0.current()
            &&& !dom.data_of(element)->0.has_snapshot_spec()
        },
    ensures
        dom.element_needs_traversal(shared, element),
{
}

/// An element is visited exactly if every node is, or it has dirty descendants, or it has no
/// styles, or its restyle data hold a hint of any kind, a request for a cascade, or in Servo
/// damage.
pub proof fn law_reasons_to_visit_an_element(
    dom: DomView,
    shared: SharedStyleContext,
    element: NodeId,
)
    requires
        dom.well_formed(),
        dom.has_element(element),
    ensures
        dom.element_needs_traversal(shared, element) <==> {
            ||| shared.product is Servo && shared.nonincremental_layout
            ||| dom.dirty[element as int]
            ||| match dom.data[element as int] {
                None => true,
                Some(data) => {
                    ||| data.styles is None
                    ||| data.restyle matches Some(restyle) && {
                        ||| restyle.hint.restyle_self
                        ||| restyle.hint.restyle_descendants
                        ||| restyle.hint.replacements != 0
                        ||| restyle.recascade
                        ||| shared.product is Servo && restyle.damage.bits != 0
                    }
                },
            }
        },
{
}

/// There is one answer to the question whether to visit an element, and where every node is
/// visited, one for all. For a text node it is what the traversal answers.
pub proof fn law_verdicts(
    dom: DomView,
    shared: SharedStyleContext,
    node: NodeId,
    verdict: bool,
    text_answers: spec_fn(NodeId, bool) -> bool,
)
    requires
        dom.well_formed(),
        dom.has(node),
    ensures
        ({
            let everything = shared.product is Servo && shared.nonincremental_layout;
            let is_element = dom.tree[node as int].is_element;
            let possible = crate::traversal::is_verdict(dom, shared, node, verdict, text_answers);
            &&& everything ==> (possible <==> verdict)
            &&& !everything && is_element ==> (possible <==> verdict
                == dom.element_needs_traversal(shared, node))
            &&& !everything && !is_element ==> (possible <==> text_answers(node, verdict))
        }),
{
}

/// A walk begins with the first child, and is over at once exactly if there is a reason not
/// to traverse the children.
pub proof fn law_walk_begins_with_the_first_child(parent: NodeId, reason: Option<CullReason>)
    ensures
        TraverseChildren::begun(parent, reason).parent == parent,
        TraverseChildren::begun(parent, reason).position == 0,
        TraverseChildren::begun(parent, reason).over <==> reason is Some,
{
}

/// Selecting a child sets the mark of its parent if the child is styled, and never unsets it.
/// Nothing else changes.
pub proof fn law_selection_changes_one_mark(
    dom: DomView,
    parent: NodeId,
    kid: NodeId,
    node: NodeId,
)
    requires
        dom.well_formed(),
        dom.has(parent),
        dom.has(kid),
        dom.has(node),
    ensures
        ({
            let after = dom.marked_for(parent, kid);
            let styled = dom.data[kid as int] matches Some(data) && data.styles is Some;
            &&& after.tree == dom.tree
            &&& after.data == dom.data
            &&& after.dirty[node as int] <==> (dom.dirty[node as int] || (node == parent && styled))
        }),
{
}

/// Expanding the snapshot of the root leaves it without a snapshot and with a pending hint
/// that asks for what was pending before and for everything that the computed hint asks of
/// the element and its descendants. Its styles, damage and request for a cascade stay, and so
/// does every other node. Without a snapshot nothing changes.
pub proof fn law_root_keeps_the_computed_hint(
    dom: DomView,
    root: NodeId,
    computed: RestyleHint,
    node: NodeId,
)
    requires
        dom.well_formed(),
        dom.has_element(root),
        dom.has(node),
    ensures
        ({
            let after = dom.with_snapshot_expanded(root, Some(computed));
            let waiting = dom.data[root as int] matches Some(data) && data.restyle matches Some(
                restyle,
            ) && restyle.snapshot is Some;
            &&& after.tree == dom.tree
            &&& after.dirty == dom.dirty
            &&& node != root || !waiting ==> after.data[node as int] == dom.data[node as int]
            &&& waiting ==> {
                let (old_data, new_data) = (dom.data[root as int]->0, after.data[root as int]->0);
                let (was, is) = (old_data.restyle->0, new_data.restyle->0);
                &&& after.data[root as int] is Some
                &&& new_data.styles == old_data.styles
                &&& new_data.restyle is Some
                &&& is.snapshot is None
                &&& is.hint.restyle_self <==> (was.hint.restyle_self || computed.restyle_self)
                &&& is.hint.restyle_descendants <==> (was.hint.restyle_descendants
                    || computed.restyle_descendants)
                &&& is.hint.replacements == was.hint.replacements | computed.replacements
                &&& is.recascade == was.recascade
                &&& is.damage == was.damage
            }
        }),
{
}

/// Where there is no snapshot on the root, no hint is needed and nothing is expanded.
pub proof fn law_root_without_snapshot_is_left_alone(
    dom: DomView,
    root: NodeId,
    computed: Option<RestyleHint>,
)
    requires
        dom.data[root as int] matches Some(data) ==> data.restyle matches Some(restyle)
            ==> restyle.snapshot is None,
    ensures
        dom.with_snapshot_expanded(root, computed) == dom,
{
}

/// If the snapshot of the root gives rise to a hint for the root or its descendants, a
/// traversal is needed afterwards.
pub proof fn law_changed_root_is_traversed(
    dom: DomView,
    shared: SharedStyleContext,
    root: NodeId,
    computed: RestyleHint,
)
    requires
        dom.well_formed(),
        dom.has_element(root),
        dom.data[root as int] matches Some(data) && data.restyle matches Some(restyle)
            && restyle.snapshot is Some,
        computed.restyle_self || computed.restyle_descendants || computed.replacements != 0,
    ensures
        dom.with_snapshot_expanded(root, Some(computed)).element_needs_traversal(shared, root),
{
    let hint = dom.data_of(root)->0.restyle->0.hint;
    let (x, y) = (hint.replacements, computed.replacements);
    assert(y != 0 ==> x | y != 0) by (bit_vector);
}

} // verus!
