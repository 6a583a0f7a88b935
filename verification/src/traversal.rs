//! Which nodes a traversal of the DOM tree visits.

use vstd::prelude::*;

use crate::context::{Product, SharedStyleContext, ThreadLocalStyleContext};
use crate::data::{ElementData, RestyleDamage};
use crate::dom::{Dom, DomView, NodeId};
use crate::restyle_hints::{RestyleHint, StoredRestyleHint};

verus! {

/// A per-traversal-level chunk of data. This is sent down by the traversal, and
/// currently only holds the dom depth for the bloom filter.
#[derive(Clone, Debug)]
pub struct PerLevelTraversalData {
    /// The current dom depth, if known, or `None` otherwise.
    ///
    /// This is kept with cooperation from the traversal code and the bloom filter.
    pub current_dom_depth: Option<usize>,
}

/// This structure exists to enforce that callers invoke `pre_traverse`, and also to
/// pass information from the pre-traversal into the primary traversal.
pub struct PreTraverseToken {
    traverse: bool,
    unstyled_children_only: bool,
}

impl PreTraverseToken {
    /// Whether the token asks for a traversal.
    pub closed spec fn traverses(self) -> bool {
        self.traverse
    }

    /// Whether the token limits the traversal to unstyled children.
    pub closed spec fn visits_unstyled_only(self) -> bool {
        self.unstyled_children_only
    }

    /// Whether we should traverse children.
    pub fn should_traverse(&self) -> (should: bool)
        ensures
            should == self.traverses(),
    {
        self.traverse
    }

    /// Whether we should traverse only unstyled children.
    pub fn traverse_unstyled_children_only(&self) -> (only: bool)
        ensures
            only == self.visits_unstyled_only(),
    {
        self.unstyled_children_only
    }
}

/// Enum to prevent duplicate logging.
#[derive(Clone, Copy, Debug, PartialEq, Eq, Structural)]
pub enum LogBehavior {
    /// We should log.
    MayLog,
    /// We shouldn't log.
    DontLog,
}

impl LogBehavior {
    /// Whether something may be logged.
    pub fn allow(&self) -> (allowed: bool)
        ensures
            allowed == (*self == LogBehavior::MayLog),
    {
        matches!(*self, LogBehavior::MayLog)
    }
}

/// The kind of traversals we could perform.
#[derive(Clone, Copy, Debug, PartialEq, Eq, Structural)]
pub enum TraversalDriver {
    /// A potentially parallel traversal.
    Parallel,
    /// A sequential traversal.
    Sequential,
}

impl TraversalDriver {
    /// Returns whether this represents a parallel traversal or not.
    pub fn is_parallel(&self) -> (parallel: bool)
        ensures
            parallel == (*self == TraversalDriver::Parallel),
    {
        matches!(*self, TraversalDriver::Parallel)
    }
}

/// Why the children of an element are not traversed.
#[derive(Clone, Copy, Debug, PartialEq, Eq, Structural)]
pub enum CullReason {
    /// The element computed `display: none`, so its subtree is not styled.
    DisplayNone,
    /// The element just got its first styles and has an XBL binding, which may replace
    /// the children: the first styling of the subtree waits for frame construction.
    XblBinding,
}

/// Why the children of the element that is being processed, and has `data`, are not
/// traversed, if they are not.
pub open spec fn cull_reason_spec(
    shared: SharedStyleContext,
    thread_local: ThreadLocalStyleContext,
    data: ElementData,
) -> Option<CullReason> {
    if data.hides() {
        Some(CullReason::DisplayNone)
    } else if shared.product == Product::Gecko
        && thread_local.current_element_info->0.is_initial_style
        && data.styles->0.has_moz_binding {
        Some(CullReason::XblBinding)
    } else {
        None
    }
}

/// What has to hold for the question whether to traverse the children of an element
/// with `data` to make sense: the element has styles, which are up to date in Servo, and
/// in Gecko it is known whether they are its first.
pub open spec fn can_judge_children(
    shared: SharedStyleContext,
    thread_local: ThreadLocalStyleContext,
    data: ElementData,
) -> bool {
    &&& data.styles is Some
    &&& shared.product == Product::Servo ==> data.current()
    &&& shared.product == Product::Gecko && !data.hides()
        ==> thread_local.current_element_info is Some
}

/// Why the children of the element that is being processed, and has `data`, are not
/// traversed, if they are not.
pub fn cull_reason(
    shared: &SharedStyleContext,
    thread_local: &ThreadLocalStyleContext,
    data: &ElementData,
) -> (reason: Option<CullReason>)
    requires
        can_judge_children(*shared, *thread_local, *data),
    ensures
        reason == cull_reason_spec(*shared, *thread_local, *data),
{
    let styles = match data.styles {
        Some(styles) => styles,
        None => return None,
    };
    if styles.display_none {
        return Some(CullReason::DisplayNone);
    }
    if shared.product == Product::Gecko && thread_local.is_initial_style()
        && styles.has_moz_binding {
        return Some(CullReason::XblBinding);
    }
    None
}

/// What to log about the children of an element: the reason why they are not
/// traversed, where there is one and logging is allowed.
pub fn cull_message(reason: Option<CullReason>, log: LogBehavior) -> (message: Option<CullReason>)
    ensures
        message == if log == LogBehavior::MayLog {
            reason
        } else {
            None
        },
{
    if log.allow() {
        reason
    } else {
        None
    }
}

impl DomView {
    /// Whether an element, or something below it, has to be visited.
    pub open spec fn element_needs_traversal(
        self,
        shared: SharedStyleContext,
        element: NodeId,
    ) -> bool {
        ||| shared.visits_everything()
        ||| self.dirty_of(element)
        ||| !self.styled(element)
        ||| self.data_of(element)->0.restyle matches Some(restyle) && {
            ||| restyle.hint != StoredRestyleHint::none()
            ||| restyle.recascade
            ||| shared.product == Product::Servo && restyle.damage != RestyleDamage::none()
        }
    }

    /// The tree once the snapshot of `element`, if it has one, has been expanded.
    pub open spec fn with_snapshot_expanded(
        self,
        element: NodeId,
        computed: Option<RestyleHint>,
    ) -> DomView {
        match self.data_of(element) {
            Some(data) if data.has_snapshot_spec() => self.with_data(
                element,
                Some(data.with_pending(data.restyle->0.expanded(computed->0))),
            ),
            _ => self,
        }
    }
}

/// Whether `verdict` is a possible answer to the question whether to visit `node`, where
/// `text_answers` says what the traversal may answer for a text node.
pub open spec fn is_verdict(
    dom: DomView,
    shared: SharedStyleContext,
    node: NodeId,
    verdict: bool,
    text_answers: spec_fn(NodeId, bool) -> bool,
) -> bool {
    if shared.visits_everything() {
        verdict
    } else if dom.has_element(node) {
        verdict == dom.element_needs_traversal(shared, node)
    } else {
        text_answers(node, verdict)
    }
}

impl DomView {
    /// The tree once `kid`, a child of `parent`, has been selected: `parent` is marked as
    /// having dirty descendants if the child is styled.
    pub open spec fn marked_for(self, parent: NodeId, kid: NodeId) -> DomView {
        if self.styled(kid) {
            self.with_dirty(parent, true)
        } else {
            self
        }
    }
}

/// A walk over the children of an element that is under way. `TraverseChildren::next`
/// carries it on.
#[derive(Clone, Copy, Debug, PartialEq, Eq, Structural)]
pub struct TraverseChildren {
    /// The element whose children are walked over.
    pub parent: NodeId,
    /// The position of the child that is looked at next.
    pub position: usize,
    /// Whether the walk is over.
    pub over: bool,
}

impl TraverseChildren {
    /// The walk over the children of `parent` as it begins. Where there is a reason not to
    /// traverse them, it is over at once.
    pub open spec fn begun(parent: NodeId, reason: Option<CullReason>) -> TraverseChildren {
        TraverseChildren { parent, position: 0, over: reason is Some }
    }

    /// What holds of the tree whenever the walk goes on.
    pub open spec fn fits(self, dom: DomView) -> bool {
        &&& dom.well_formed()
        &&& dom.has_element(self.parent)
        &&& self.position <= dom.children(self.parent).len()
    }

    /// Whether the walk, when it looks at the tree `dom`, goes on to `next` with `kid` as the
    /// first child that is to be visited, or to its end without one. `text_answers` says
    /// what the traversal may answer for a text node.
    pub open spec fn goes_on(
        self,
        dom: DomView,
        shared: SharedStyleContext,
        next: TraverseChildren,
        kid: Option<NodeId>,
        text_answers: spec_fn(NodeId, bool) -> bool,
    ) -> bool {
        let kids = dom.children(self.parent);
        let passed = if kid is Some {
            next.position - 1
        } else {
            next.position as int
        };
        if self.over {
            kid is None && next == self
        } else {
            &&& next.parent == self.parent
            &&& next.over == kid is None
            &&& self.position <= passed
            &&& next.position <= kids.len()
            &&& forall|j: int|
                self.position <= j < passed ==> is_verdict(
                    dom,
                    shared,
                    #[trigger] kids[j],
                    false,
                    text_answers,
                )
            &&& match kid {
                Some(kid) => kid == kids[passed] && is_verdict(
                    dom,
                    shared,
                    kid,
                    true,
                    text_answers,
                ),
                None => next.position == kids.len(),
            }
        }
    }
}

/// What a traversal may answer for the text nodes of a tree.
pub open spec fn text_answers<D: DomTraversal>(dom: &Dom) -> spec_fn(NodeId, bool) -> bool {
    |n: NodeId, verdict: bool| call_ensures(D::text_node_needs_traversal, (dom, n), verdict)
}

impl TraverseChildren {
    /// The next child that should be enqueued for processing, in document order, or `None`
    /// at the end of the walk. Each child is judged by the state that the tree is in when the
    /// walk reaches it, so the processing of a child may come before the next call. If the
    /// child is styled, its parent is marked as having dirty descendants.
    pub fn next<D: DomTraversal>(&mut self, shared: &SharedStyleContext, dom: &mut Dom) -> (kid:
        Option<NodeId>)
        requires
            old(self).fits(old(dom)@),
        ensures
            old(self).goes_on(
                old(dom)@,
                *shared,
                *final(self),
                kid,
                text_answers::<D>(&*old(dom)),
            ),
            final(dom)@ == match kid {
                Some(kid) => old(dom)@.marked_for(old(self).parent, kid),
                None => old(dom)@,
            },
            final(self).fits(final(dom)@),
    {
        if self.over {
            return None;
        }
        let count = dom.child_count(self.parent);
        while self.position < count
            invariant
                *dom == *old(dom),
                !old(self).over,
                !self.over,
                self.fits(dom@),
                count == dom@.children(self.parent).len(),
                self.parent == old(self).parent,
                old(self).position <= self.position,
                forall|j: int|
                    old(self).position <= j < self.position ==> is_verdict(
                        dom@,
                        *shared,
                        #[trigger] dom@.children(self.parent)[j],
                        false,
                        text_answers::<D>(&*old(dom)),
                    ),
            decreases count - self.position,
        {
            let kid = dom.child(self.parent, self.position);
            let enqueued = D::traverse_child(dom, shared, self.parent, self.position);
            self.position += 1;
            if enqueued {
                return Some(kid);
            }
        }
        self.over = true;
        None
    }
}

/// A DOM Traversal trait, that is used to generically implement styling for Gecko and
/// Servo. An implementation that replaces a provided method has to keep its contract.
pub trait DomTraversal: Sized + Sync {
    /// The thread-local context, used to store non-thread-safe stuff that needs to be
    /// used in the traversal, and of which we use one per worker, like the bloom filter,
    /// for example.
    type ThreadLocalContext: Send;

    /// Process `node` on the way down, before its children have been processed.
    fn process_preorder(
        &self,
        data: &mut PerLevelTraversalData,
        thread_local: &mut Self::ThreadLocalContext,
        dom: &mut Dom,
        node: NodeId,
    )
        requires
            old(dom)@.well_formed(),
            old(dom)@.has(node),
        ensures
            final(dom)@.well_formed(),
            final(dom)@.tree == old(dom)@.tree,
    ;

    /// Process `node` on the way up, after its children have been processed.
    ///
    /// This is only executed if `needs_postorder_traversal` returns true.
    fn process_postorder(
        &self,
        thread_local: &mut Self::ThreadLocalContext,
        dom: &mut Dom,
        node: NodeId,
    )
        requires
            old(dom)@.well_formed(),
            old(dom)@.has(node),
            call_ensures(Self::needs_postorder_traversal, (), true),
        ensures
            final(dom)@.well_formed(),
            final(dom)@.tree == old(dom)@.tree,
    ;

    /// Boolean that specifies whether a bottom up traversal should be performed.
    ///
    /// If it's false, then `process_postorder` has no effect at all.
    fn needs_postorder_traversal() -> (needs: bool)
        default_ensures
            needs,
    {
        true
    }

    /// Must be invoked before traversing the root element to determine whether a
    /// traversal is needed. Returns a token that allows the caller to prove that the call
    /// happened.
    ///
    /// The `unstyled_children_only` parameter is used in Gecko to style newly-appended
    /// children without restyling the parent.
    ///
    /// A snapshot is normally expanded by the parent, so the root needs a special case:
    /// where it has one, `snapshot_hint` is the hint that selector invalidation computed
    /// for it. A request to restyle later siblings is dropped, and so the root must not
    /// have any.
    fn pre_traverse(
        dom: &mut Dom,
        shared: &SharedStyleContext,
        root: NodeId,
        unstyled_children_only: bool,
        snapshot_hint: Option<RestyleHint>,
    ) -> (token: PreTraverseToken)
        requires
            old(dom)@.well_formed(),
            old(dom)@.has_element(root),
            !unstyled_children_only && old(dom)@.data_of(root) is Some ==> {
                let data = old(dom)@.data_of(root)->0;
                &&& data.restyle is Some ==> old(dom)@.next_sibling_element(root) is None
                &&& data.has_snapshot_spec() ==> snapshot_hint is Some
            },
        ensures
            final(dom)@.well_formed(),
            token.visits_unstyled_only() == unstyled_children_only,
            unstyled_children_only ==> {
                &&& final(dom)@ == old(dom)@
                &&& token.traverses()
            },
            !unstyled_children_only ==> {
                &&& final(dom)@ == old(dom)@.with_snapshot_expanded(root, snapshot_hint)
                &&& token.traverses() == final(dom)@.element_needs_traversal(*shared, root)
            },
    {
        if unstyled_children_only {
            return PreTraverseToken { traverse: true, unstyled_children_only: true };
        }
        if let Some(mut data) = dom.data(root) {
            if let Some(mut restyle) = data.restyle {
                if let Some(computed) = snapshot_hint {
                    let _later_siblings = restyle.expand_snapshot(computed);
                }
                data.restyle = Some(restyle);
                dom.set_data(root, data);
            }
        }
        assert(dom@ =~= old(dom)@.with_snapshot_expanded(root, snapshot_hint));
        PreTraverseToken {
            traverse: Self::node_needs_traversal(dom, shared, root),
            unstyled_children_only: false,
        }
    }

    /// Returns true if traversal should visit a text node. The style system never
    /// processes text nodes, but Servo overrides this to visit them for flow construction
    /// when necessary.
    fn text_node_needs_traversal(dom: &Dom, node: NodeId) -> (needs: bool)
        requires
            dom@.well_formed(),
            dom@.has(node),
            !dom@.has_element(node),
        default_ensures
            !needs,
    {
        false
    }

    /// Returns true if traversal is needed for the given node and subtree.
    fn node_needs_traversal(dom: &Dom, shared: &SharedStyleContext, node: NodeId) -> (needs: bool)
        requires
            dom@.well_formed(),
            dom@.has(node),
        ensures
            is_verdict(
                dom@,
                *shared,
                node,
                needs,
                |n: NodeId, verdict: bool|
                    call_ensures(Self::text_node_needs_traversal, (dom, n), verdict),
            ),
    {
        // Non-incremental layout visits every node.
        if shared.product == Product::Servo && shared.nonincremental_layout {
            return true;
        }
        if !dom.is_element(node) {
            return Self::text_node_needs_traversal(dom, node);
        }
        // If the dirty descendants bit is set, we need to traverse no matter what. Skip
        // examining the data.

        if dom.has_dirty_descendants(node) {
            return true;
        }
        // If there is no data, or there are no styles in it, we need to visit the element.

        let data = match dom.data(node) {
            Some(data) => data,
            None => return true,
        };
        if !data.has_styles() {
            return true;
        }
        if let Some(restyle) = data.restyle {
            // If we have a restyle hint or need to recascade, we need to visit the element.
            // This is different from checking whether the styles are current, which does
            // not look at hints for the descendants.
            if !restyle.hint.is_empty() || restyle.recascade {
                return true;
            }
            // Servo constructs flows on the way back up, so any element with damage has to
            // be visited for fixup or reconstruction.

            if shared.product == Product::Servo && restyle.damage != RestyleDamage::empty() {
                return true;
            }
        }
        false
    }

    /// Returns true if traversal of this element's children is allowed. We use this to
    /// cull traversal of various subtrees.
    ///
    /// This may be called multiple times when processing an element, so we pass a parameter
    /// to keep the logs tidy: an implementation that logs what it culls does so only where
    /// `log` allows it.
    #[allow(unused_variables)]
    fn should_traverse_children(
        &self,
        shared: &SharedStyleContext,
        thread_local: &ThreadLocalStyleContext,
        parent: NodeId,
        parent_data: &ElementData,
        log: LogBehavior,
    ) -> (should: bool)
        requires
            can_judge_children(*shared, *thread_local, *parent_data),
        ensures
            should == (cull_reason_spec(*shared, *thread_local, *parent_data) is None),
    {
        cull_reason(shared, thread_local, parent_data).is_none()
    }

    /// Helper for the traversal implementations to select the children that should be
    /// enqueued for processing. Ends the processing of `parent` and begins the walk over its
    /// children, which yields nothing if we're not allowed to traverse past `parent`.
    fn traverse_children(
        &self,
        shared: &SharedStyleContext,
        thread_local: &mut ThreadLocalStyleContext,
        dom: &Dom,
        parent: NodeId,
    ) -> (walk: TraverseChildren)
        requires
            dom@.well_formed(),
            dom@.has_element(parent),
            dom@.data_of(parent) is Some,
            can_judge_children(*shared, *old(thread_local), dom@.data_of(parent)->0),
        ensures
            *final(thread_local) == old(thread_local).ended(),
            walk == TraverseChildren::begun(
                parent,
                cull_reason_spec(*shared, *old(thread_local), dom@.data_of(parent)->0),
            ),
            walk.fits(dom@),
    {
        // Check if we're allowed to traverse past this element.
        let should_traverse = match dom.data(parent) {
            Some(data) => self.should_traverse_children(
                shared,
                thread_local,
                parent,
                &data,
                LogBehavior::MayLog,
            ),
            None => false,
        };
        thread_local.end_element();
        TraverseChildren { parent, position: 0, over: !should_traverse }
    }

    /// Whether the child of `parent` at a position should be enqueued for processing. If so,
    /// and the child is styled, `parent` is marked as having dirty descendants.
    fn traverse_child(
        dom: &mut Dom,
        shared: &SharedStyleContext,
        parent: NodeId,
        position: usize,
    ) -> (enqueued: bool)
        requires
            old(dom)@.well_formed(),
            old(dom)@.has_element(parent),
            position < old(dom)@.children(parent).len(),
        ensures
            is_verdict(
                old(dom)@,
                *shared,
                old(dom)@.children(parent)[position as int],
                enqueued,
                |n: NodeId, verdict: bool|
                    call_ensures(Self::text_node_needs_traversal, (&*old(dom), n), verdict),
            ),
            enqueued ==> final(dom)@ == old(dom)@.marked_for(
                parent,
                old(dom)@.children(parent)[position as int],
            ),
            !enqueued ==> *final(dom) == *old(dom),
            final(dom)@.well_formed(),
    {
        let kid = dom.child(parent, position);
        assert(parent < kid < dom@.len());
        if !Self::node_needs_traversal(dom, shared, kid) {
            return false;
        }
        let styled = match dom.data(kid) {
            Some(data) => data.has_styles(),
            None => false,
        };
        if styled {
            dom.set_dirty_descendants(parent);
        }
        true
    }

    /// Return the shared style context common to all worker threads.
    fn shared_context(&self) -> &SharedStyleContext;

    /// Creates a thread-local context.
    fn create_thread_local_context(&self) -> Self::ThreadLocalContext;

    /// Whether we're performing a parallel traversal.
    ///
    /// NB: We do this check on runtime. We could guarantee correctness in this regard via
    /// the type system via a `TraversalDriver` trait for this trait, that could be one of
    /// two concrete types. It's not clear whether the potential code size impact of that
    /// is worth it.
    fn is_parallel(&self) -> bool;
}

} // verus!
