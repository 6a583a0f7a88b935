use style_traversal::context::{Product, SharedStyleContext, ThreadLocalStyleContext};
use style_traversal::data::{ElementData, ElementStyles, RestyleDamage, RestyleData};
use style_traversal::dom::{Dom, NodeId};
use style_traversal::restyle_hints::{RestyleHint, StoredRestyleHint};
use style_traversal::traversal::{
    cull_reason, CullReason, DomTraversal, LogBehavior, PerLevelTraversalData, TraversalDriver,
    TraverseChildren,
};

const SERVO: SharedStyleContext =
    SharedStyleContext { product: Product::Servo, nonincremental_layout: false };
const GECKO: SharedStyleContext =
    SharedStyleContext { product: Product::Gecko, nonincremental_layout: false };

/// A traversal that visits elements only.
struct Restyle {
    shared: SharedStyleContext,
    driver: TraversalDriver,
}

impl DomTraversal for Restyle {
    type ThreadLocalContext = ThreadLocalStyleContext;

    fn process_preorder(
        &self,
        data: &mut PerLevelTraversalData,
        thread_local: &mut ThreadLocalStyleContext,
        dom: &mut Dom,
        node: NodeId,
    ) {
        data.current_dom_depth = Some(node);
        let element_data = dom.ensure_element_data(node);
        thread_local.begin_element(node, &element_data);
    }

    fn process_postorder(
        &self,
        _thread_local: &mut ThreadLocalStyleContext,
        _dom: &mut Dom,
        _node: NodeId,
    ) {
    }

    fn shared_context(&self) -> &SharedStyleContext {
        &self.shared
    }

    fn create_thread_local_context(&self) -> ThreadLocalStyleContext {
        ThreadLocalStyleContext::new()
    }

    fn is_parallel(&self) -> bool {
        self.driver.is_parallel()
    }
}

/// A traversal that visits text nodes too, and has no way back up.
struct Flow;

impl DomTraversal for Flow {
    type ThreadLocalContext = ();

    fn process_preorder(
        &self,
        _data: &mut PerLevelTraversalData,
        _thread_local: &mut (),
        _dom: &mut Dom,
        _node: NodeId,
    ) {
    }

    fn process_postorder(&self, _thread_local: &mut (), _dom: &mut Dom, _node: NodeId) {}

    fn needs_postorder_traversal() -> bool {
        false
    }

    fn text_node_needs_traversal(_dom: &Dom, _node: NodeId) -> bool {
        true
    }

    fn shared_context(&self) -> &SharedStyleContext {
        &SERVO
    }

    fn create_thread_local_context(&self) {}

    fn is_parallel(&self) -> bool {
        false
    }
}

fn restyle() -> Restyle {
    Restyle { shared: SERVO, driver: TraversalDriver::Parallel }
}

fn styled(display_none: bool, has_moz_binding: bool) -> ElementData {
    let styles = ElementStyles { display_none, has_moz_binding, values: 1 };
    ElementData { styles: Some(styles), restyle: None }
}

fn plain() -> ElementData {
    styled(false, false)
}

fn with_restyle(restyle: RestyleData) -> ElementData {
    ElementData { restyle: Some(restyle), ..plain() }
}

fn single(data: Option<ElementData>) -> (Dom, NodeId) {
    let mut dom = Dom::new();
    let root = dom.add_root(true);
    if let Some(data) = data {
        dom.set_data(root, data);
    }
    (dom, root)
}

fn needs(shared: &SharedStyleContext, data: Option<ElementData>) -> bool {
    let (dom, root) = single(data);
    Restyle::node_needs_traversal(&dom, shared, root)
}

/// Walks over the children of `parent` with nothing in between.
fn select<D: DomTraversal>(
    traversal: &D,
    shared: &SharedStyleContext,
    context: &mut ThreadLocalStyleContext,
    dom: &mut Dom,
    parent: NodeId,
) -> Vec<NodeId> {
    let mut walk = traversal.traverse_children(shared, context, dom, parent);
    let mut enqueued = Vec::new();
    while let Some(kid) = walk.next::<D>(shared, dom) {
        enqueued.push(kid);
    }
    enqueued
}

/// A context in which `element`, which has `data`, is being processed.
fn processing(element: NodeId, data: &ElementData) -> ThreadLocalStyleContext {
    let mut context = ThreadLocalStyleContext::new();
    context.begin_element(element, data);
    context
}

#[test]
fn unstyled_elements_need_traversal() {
    assert!(needs(&SERVO, None));
    assert!(needs(&SERVO, Some(ElementData::new())));
    assert!(needs(&GECKO, None));
    assert!(!needs(&SERVO, Some(plain())));
    assert!(!needs(&GECKO, Some(plain())));
}

#[test]
fn pending_restyles_need_traversal() {
    let descendants =
        StoredRestyleHint { restyle_self: false, restyle_descendants: true, replacements: 0 };
    assert!(needs(&GECKO, Some(with_restyle(RestyleData { hint: descendants, ..RestyleData::new() }))));
    assert!(needs(&GECKO, Some(with_restyle(RestyleData { recascade: true, ..RestyleData::new() }))));
    assert!(!needs(&GECKO, Some(with_restyle(RestyleData::new()))));
    // A snapshot alone is no reason: it is expanded before the question comes up.
    let snapshot = RestyleData { snapshot: Some(8), ..RestyleData::new() };
    assert!(!needs(&GECKO, Some(with_restyle(snapshot))));
}

#[test]
fn damage_needs_traversal_in_servo_only() {
    let damaged = RestyleData { damage: RestyleDamage { bits: 2 }, ..RestyleData::new() };
    assert!(needs(&SERVO, Some(with_restyle(damaged))));
    assert!(!needs(&GECKO, Some(with_restyle(damaged))));
}

#[test]
fn dirty_descendants_need_traversal() {
    let (mut dom, root) = single(Some(plain()));
    dom.set_dirty_descendants(root);
    assert!(Restyle::node_needs_traversal(&dom, &GECKO, root));
}

#[test]
fn nonincremental_layout_selects_all() {
    let scratch_servo = SharedStyleContext { nonincremental_layout: true, ..SERVO };
    let scratch_gecko = SharedStyleContext { nonincremental_layout: true, ..GECKO };
    assert!(needs(&scratch_servo, Some(plain())));
    assert!(!needs(&scratch_gecko, Some(plain())));

    let (mut dom, root) = single(Some(plain()));
    let text = dom.append_child(root, false);
    let kid = dom.append_child(root, true);
    dom.set_data(kid, plain());
    assert!(Restyle::node_needs_traversal(&dom, &scratch_servo, text));
    let mut context = processing(root, &plain());
    let enqueued = select(&restyle(), &scratch_servo, &mut context, &mut dom, root);
    assert_eq!(enqueued, vec![text, kid]);
    assert!(dom.has_dirty_descendants(root));
}

#[test]
fn text_nodes_are_visited_only_on_demand() {
    let (mut dom, root) = single(Some(plain()));
    let text = dom.append_child(root, false);
    assert!(!Restyle::node_needs_traversal(&dom, &SERVO, text));
    assert!(Flow::node_needs_traversal(&dom, &SERVO, text));

    let mut context = processing(root, &plain());
    assert_eq!(select(&restyle(), &SERVO, &mut context, &mut dom, root), Vec::<NodeId>::new());
    let mut context = processing(root, &plain());
    assert_eq!(select(&Flow, &SERVO, &mut context, &mut dom, root), vec![text]);
    // A text node has no styles, so it marks nothing.
    assert!(!dom.has_dirty_descendants(root));
}

#[test]
fn postorder_is_the_default() {
    assert!(Restyle::needs_postorder_traversal());
    assert!(!Flow::needs_postorder_traversal());
}

#[test]
fn hidden_parents_are_culled() {
    let hidden = styled(true, true);
    for shared in [SERVO, GECKO] {
        let context = processing(0, &ElementData::new());
        assert_eq!(cull_reason(&shared, &context, &hidden), Some(CullReason::DisplayNone));
        assert!(!restyle().should_traverse_children(&shared, &context, 0, &hidden, LogBehavior::DontLog));
    }
}

#[test]
fn first_styling_of_bound_elements_is_deferred_in_gecko() {
    let bound = styled(false, true);
    let initial = processing(0, &ElementData::new());
    let later = processing(0, &bound);
    assert_eq!(cull_reason(&GECKO, &initial, &bound), Some(CullReason::XblBinding));
    assert!(!restyle().should_traverse_children(&GECKO, &initial, 0, &bound, LogBehavior::DontLog));
    assert_eq!(cull_reason(&GECKO, &later, &bound), None);
    assert!(restyle().should_traverse_children(&GECKO, &later, 0, &bound, LogBehavior::DontLog));
    assert!(restyle().should_traverse_children(&SERVO, &initial, 0, &bound, LogBehavior::DontLog));
    assert!(restyle().should_traverse_children(&GECKO, &initial, 0, &plain(), LogBehavior::DontLog));
}

#[test]
fn stale_styles_may_be_judged_in_gecko() {
    let stale = with_restyle(RestyleData { recascade: true, ..RestyleData::new() });
    assert!(restyle().should_traverse_children(&GECKO, &processing(0, &stale), 0, &stale, LogBehavior::DontLog));
}

#[test]
fn elements_in_need_are_selected_in_document_order() {
    let (mut dom, root) = single(Some(plain()));
    let unstyled = dom.append_child(root, true);
    let quiet = dom.append_child(root, true);
    let text = dom.append_child(root, false);
    let dirty = dom.append_child(root, true);
    let fresh = dom.append_child(root, true);
    dom.set_data(quiet, plain());
    dom.set_data(dirty, plain());
    dom.set_dirty_descendants(dirty);
    let mut context = processing(root, &plain());
    let enqueued = select(&restyle(), &SERVO, &mut context, &mut dom, root);
    assert_eq!(enqueued, vec![unstyled, dirty, fresh]);
    assert!(!enqueued.contains(&text));
    assert_eq!(context.current_element_info, None);
}

#[test]
fn selecting_a_styled_child_marks_the_parent() {
    let (mut dom, root) = single(Some(plain()));
    let kid = dom.append_child(root, true);
    dom.set_data(kid, with_restyle(RestyleData { recascade: true, ..RestyleData::new() }));
    let mut context = processing(root, &plain());
    assert_eq!(select(&restyle(), &SERVO, &mut context, &mut dom, root), vec![kid]);
    assert!(dom.has_dirty_descendants(root));
    assert!(!dom.has_dirty_descendants(kid));
}

#[test]
fn selecting_unstyled_children_marks_nothing() {
    let (mut dom, root) = single(Some(plain()));
    let kid = dom.append_child(root, true);
    let blank = dom.append_child(root, true);
    dom.set_data(blank, ElementData::new());
    let mut context = processing(root, &plain());
    assert_eq!(select(&restyle(), &SERVO, &mut context, &mut dom, root), vec![kid, blank]);
    assert!(!dom.has_dirty_descendants(root));
}

#[test]
fn nothing_is_selected_below_hidden_parents() {
    let (mut dom, root) = single(Some(styled(true, false)));
    dom.append_child(root, true);
    let mut context = processing(root, &styled(true, false));
    assert_eq!(select(&restyle(), &SERVO, &mut context, &mut dom, root), Vec::<NodeId>::new());
    assert_eq!(context.current_element_info, None);
    assert!(!dom.has_dirty_descendants(root));
}

#[test]
fn children_are_judged_when_the_walk_reaches_them() {
    let (mut dom, root) = single(Some(plain()));
    let first = dom.append_child(root, true);
    let second = dom.append_child(root, true);
    let third = dom.append_child(root, true);
    dom.set_data(second, plain());
    let mut context = processing(root, &plain());
    let mut walk = restyle().traverse_children(&SERVO, &mut context, &dom, root);
    assert_eq!(walk, TraverseChildren { parent: root, position: 0, over: false });
    assert_eq!(walk.next::<Restyle>(&SERVO, &mut dom), Some(first));
    assert!(!dom.has_dirty_descendants(root));
    // The processing of the first child gives the second a reason to be visited, and takes
    // away that of the third.
    dom.set_data(second, with_restyle(RestyleData { recascade: true, ..RestyleData::new() }));
    dom.set_data(third, plain());
    assert_eq!(walk.next::<Restyle>(&SERVO, &mut dom), Some(second));
    assert!(dom.has_dirty_descendants(root));
    // A mark that is taken away stays away, unless another styled child is selected.
    dom.unset_dirty_descendants(root);
    assert_eq!(walk.next::<Restyle>(&SERVO, &mut dom), None);
    assert_eq!(walk, TraverseChildren { parent: root, position: 3, over: true });
    assert!(!dom.has_dirty_descendants(root));
    assert_eq!(walk.next::<Restyle>(&SERVO, &mut dom), None);
}

#[test]
fn one_child_is_judged_at_its_position() {
    let (mut dom, root) = single(Some(plain()));
    let quiet = dom.append_child(root, true);
    let text = dom.append_child(root, false);
    let stale = dom.append_child(root, true);
    dom.set_data(quiet, plain());
    dom.set_data(stale, with_restyle(RestyleData { recascade: true, ..RestyleData::new() }));
    assert!(!Restyle::traverse_child(&mut dom, &SERVO, root, 0));
    assert!(!Restyle::traverse_child(&mut dom, &SERVO, root, 1));
    assert!(Flow::traverse_child(&mut dom, &SERVO, root, 1));
    assert_eq!(dom.data(text), None);
    assert!(!dom.has_dirty_descendants(root));
    assert!(Restyle::traverse_child(&mut dom, &SERVO, root, 2));
    assert!(dom.has_dirty_descendants(root));
}

#[test]
fn culled_walk_is_over_for_good() {
    let (mut dom, root) = single(Some(styled(true, false)));
    let mut context = processing(root, &styled(true, false));
    let mut walk = restyle().traverse_children(&SERVO, &mut context, &dom, root);
    assert_eq!(walk, TraverseChildren { parent: root, position: 0, over: true });
    dom.append_child(root, true);
    assert_eq!(walk.next::<Restyle>(&SERVO, &mut dom), None);
}

#[test]
fn walk_keeps_an_old_mark_of_the_parent() {
    let (mut dom, root) = single(Some(plain()));
    let kid = dom.append_child(root, true);
    dom.set_data(kid, plain());
    dom.set_dirty_descendants(root);
    let mut context = processing(root, &plain());
    assert_eq!(select(&restyle(), &SERVO, &mut context, &mut dom, root), Vec::<NodeId>::new());
    assert!(dom.has_dirty_descendants(root));
}

#[test]
fn unstyled_children_only_always_traverses() {
    let (mut dom, root) = single(Some(plain()));
    let token = Restyle::pre_traverse(&mut dom, &GECKO, root, true, None);
    assert!(token.should_traverse());
    assert!(token.traverse_unstyled_children_only());
    // A snapshot stays as it is.
    let waiting = with_restyle(RestyleData { snapshot: Some(1), ..RestyleData::new() });
    dom.set_data(root, waiting);
    assert!(Restyle::pre_traverse(&mut dom, &GECKO, root, true, None).should_traverse());
    assert_eq!(dom.data(root), Some(waiting));
}

#[test]
fn pre_traverse_asks_whether_the_root_needs_it() {
    let (mut dom, root) = single(Some(plain()));
    let token = Restyle::pre_traverse(&mut dom, &SERVO, root, false, None);
    assert!(!token.should_traverse());
    assert!(!token.traverse_unstyled_children_only());
    let (mut dom, root) = single(None);
    assert!(Restyle::pre_traverse(&mut dom, &SERVO, root, false, None).should_traverse());
    assert_eq!(dom.data(root), None);
}

#[test]
fn pre_traverse_expands_the_snapshot_of_the_root() {
    let computed = RestyleHint {
        restyle_self: false,
        restyle_descendants: true,
        restyle_later_siblings: true,
        replacements: 0,
    };
    let waiting = RestyleData { snapshot: Some(1), ..RestyleData::new() };
    let (mut dom, root) = single(Some(with_restyle(waiting)));
    let token = Restyle::pre_traverse(&mut dom, &GECKO, root, false, Some(computed));
    assert!(token.should_traverse());
    let expanded = RestyleData { hint: computed.to_stored(), ..RestyleData::new() };
    assert_eq!(dom.data(root), Some(with_restyle(expanded)));

    // An empty hint leaves nothing to do.
    let empty = RestyleHint {
        restyle_self: false,
        restyle_descendants: false,
        restyle_later_siblings: false,
        replacements: 0,
    };
    let (mut dom, root) = single(Some(with_restyle(waiting)));
    assert!(!Restyle::pre_traverse(&mut dom, &GECKO, root, false, Some(empty)).should_traverse());
    assert_eq!(dom.data(root), Some(with_restyle(RestyleData::new())));
}

#[test]
fn traversals_process_nodes_their_own_way() {
    let traversal = Restyle { shared: GECKO, driver: TraversalDriver::Sequential };
    assert_eq!(*traversal.shared_context(), GECKO);
    assert!(!traversal.is_parallel());
    assert!(restyle().is_parallel());
    let (mut dom, root) = single(None);
    let mut level = PerLevelTraversalData { current_dom_depth: None };
    let mut context = traversal.create_thread_local_context();
    traversal.process_preorder(&mut level, &mut context, &mut dom, root);
    assert_eq!(level.current_dom_depth, Some(root));
    assert!(context.is_initial_style());
    traversal.process_postorder(&mut context, &mut dom, root);
}
