use style_traversal::context::{
    MatchResults, Product, SharedStyleContext, ThreadLocalStyleContext, TraversalStatistics,
};
use style_traversal::data::{ElementData, ElementStyles, RestyleDamage, RestyleData};
use style_traversal::dom::{Dom, NodeId};
use style_traversal::recalc::{recalc_style_at, RecalcReply, RecalcRequest, StyleSharingResult};
use style_traversal::restyle_hints::{RestyleHint, StoredRestyleHint};
use style_traversal::traversal::{DomTraversal, PerLevelTraversalData};

const SERVO: SharedStyleContext =
    SharedStyleContext { product: Product::Servo, nonincremental_layout: false };
const GECKO: SharedStyleContext =
    SharedStyleContext { product: Product::Gecko, nonincremental_layout: false };
const SUBTREE: StoredRestyleHint =
    StoredRestyleHint { restyle_self: true, restyle_descendants: true, replacements: 0 };
const SELF: StoredRestyleHint =
    StoredRestyleHint { restyle_self: true, restyle_descendants: false, replacements: 0 };
const NONE: StoredRestyleHint =
    StoredRestyleHint { restyle_self: false, restyle_descendants: false, replacements: 0 };

struct Restyle;

impl DomTraversal for Restyle {
    type ThreadLocalContext = ();

    fn process_preorder(
        &self,
        _data: &mut PerLevelTraversalData,
        _thread_local: &mut (),
        _dom: &mut Dom,
        _node: NodeId,
    ) {
    }

    fn process_postorder(&self, _thread_local: &mut (), _dom: &mut Dom, _node: NodeId) {}

    fn shared_context(&self) -> &SharedStyleContext {
        &SERVO
    }

    fn create_thread_local_context(&self) {}

    fn is_parallel(&self) -> bool {
        false
    }
}

/// What a recalculation left behind.
struct Outcome {
    requests: Vec<RecalcRequest>,
    context: ThreadLocalStyleContext,
    level: PerLevelTraversalData,
}

/// Recalculates the style of `element`, giving the replies one after the other.
fn run(
    shared: SharedStyleContext,
    dom: &mut Dom,
    element: NodeId,
    depth: Option<usize>,
    replies: Vec<RecalcReply>,
) -> Outcome {
    let mut context = ThreadLocalStyleContext::new();
    let mut level = PerLevelTraversalData { current_dom_depth: depth };
    let mut requests = Vec::new();
    let mut recalc = recalc_style_at(&Restyle, &shared, &level, &mut context, dom, element);
    for reply in replies {
        requests.push(recalc.request);
        recalc.step(&Restyle, &shared, &mut level, &mut context, dom, reply);
    }
    assert_eq!(recalc.request, RecalcRequest::Done);
    assert_eq!(recalc.element, element);
    Outcome { requests, context, level }
}

fn statistics(traversed: u32, styled: u32, matched: u32, shared: u32) -> TraversalStatistics {
    TraversalStatistics {
        elements_traversed: traversed,
        elements_styled: styled,
        elements_matched: matched,
        styles_shared: shared,
    }
}

fn results(primary: u64, shareable: bool) -> MatchResults {
    MatchResults { primary, per_pseudo: 50, relations: 60, primary_is_shareable: shareable }
}

fn data(values: u64, display_none: bool, restyle: Option<RestyleData>) -> ElementData {
    let styles = ElementStyles { display_none, has_moz_binding: false, values };
    ElementData { styles: Some(styles), restyle }
}

fn hinted(hint: StoredRestyleHint) -> RestyleData {
    RestyleData { hint, ..RestyleData::new() }
}

fn recascade(hint: StoredRestyleHint) -> RestyleData {
    RestyleData { recascade: true, ..hinted(hint) }
}

fn snapshot(key: u64) -> RestyleData {
    RestyleData { snapshot: Some(key), ..RestyleData::new() }
}

fn cannot_share(data: ElementData) -> RecalcReply {
    RecalcReply::Sharing { result: StyleSharingResult::CannotShare, data }
}

/// A root with `count` element children.
fn family(count: usize) -> (Dom, NodeId, Vec<NodeId>) {
    let mut dom = Dom::new();
    let root = dom.add_root(true);
    let mut kids = Vec::new();
    for _ in 0..count {
        kids.push(dom.append_child(root, true));
    }
    (dom, root, kids)
}

#[test]
fn current_element_with_nothing_to_do_is_left_alone() {
    let (mut dom, root, kids) = family(1);
    dom.set_data(root, data(1, false, None));
    dom.set_data(kids[0], data(2, false, None));
    let outcome = run(SERVO, &mut dom, root, Some(0), vec![]);
    assert_eq!(outcome.requests, vec![]);
    assert_eq!(outcome.context.statistics, statistics(1, 0, 0, 0));
    assert_eq!(outcome.level.current_dom_depth, Some(0));
    assert_eq!(dom.data(root), Some(data(1, false, None)));
    assert_eq!(dom.data(kids[0]), Some(data(2, false, None)));
    assert!(!dom.has_dirty_descendants(root));
}

#[test]
fn new_element_is_matched_and_cascaded() {
    let (mut dom, root, kids) = family(1);
    dom.set_data(root, data(1, false, None));
    let kid = kids[0];
    dom.set_data(kid, ElementData::new());
    let replies = vec![
        cannot_share(ElementData::new()),
        RecalcReply::DomDepth(1),
        RecalcReply::Matched(results(5, true)),
        RecalcReply::Cascaded(data(9, false, None)),
        RecalcReply::Acknowledged,
    ];
    let outcome = run(SERVO, &mut dom, kid, None, replies);
    assert_eq!(
        outcome.requests,
        vec![
            RecalcRequest::ShareStyle,
            RecalcRequest::InsertParents { current_dom_depth: None },
            RecalcRequest::Match,
            RecalcRequest::Cascade {
                parent: Some(root),
                results: results(5, true),
                shareable: true
            },
            RecalcRequest::InsertCandidate { values: 9, relations: 60 },
        ]
    );
    assert_eq!(outcome.context.statistics, statistics(1, 1, 1, 0));
    assert!(outcome.context.is_initial_style());
    assert_eq!(outcome.level.current_dom_depth, Some(1));
    assert_eq!(dom.data(kid), Some(data(9, false, None)));
}

#[test]
fn unshareable_styles_are_not_cached() {
    let (mut dom, root, _) = family(0);
    dom.set_data(root, ElementData::new());
    let replies = vec![
        cannot_share(ElementData::new()),
        RecalcReply::DomDepth(0),
        RecalcReply::Matched(results(5, false)),
        RecalcReply::Cascaded(data(9, false, None)),
    ];
    let outcome = run(SERVO, &mut dom, root, Some(0), replies);
    assert_eq!(
        outcome.requests,
        vec![
            RecalcRequest::ShareStyle,
            RecalcRequest::InsertParents { current_dom_depth: Some(0) },
            RecalcRequest::Match,
            RecalcRequest::Cascade { parent: None, results: results(5, false), shareable: false },
        ]
    );
}

#[test]
fn known_dom_depth_is_kept() {
    let (mut dom, root, _) = family(0);
    dom.set_data(root, ElementData::new());
    let replies = vec![
        cannot_share(ElementData::new()),
        RecalcReply::DomDepth(4),
        RecalcReply::Matched(results(5, false)),
        RecalcReply::Cascaded(data(9, false, None)),
    ];
    assert_eq!(run(SERVO, &mut dom, root, Some(4), replies).level.current_dom_depth, Some(4));
}

#[test]
fn shared_style_needs_neither_matching_nor_cascade() {
    let (mut dom, root, _) = family(0);
    dom.set_data(root, ElementData::new());
    let replies = vec![
        RecalcReply::Sharing {
            result: StyleSharingResult::StyleWasShared(3),
            data: data(6, false, None),
        },
        RecalcReply::Acknowledged,
    ];
    let outcome = run(SERVO, &mut dom, root, None, replies);
    assert_eq!(
        outcome.requests,
        vec![RecalcRequest::ShareStyle, RecalcRequest::TouchCandidate { index: 3 }]
    );
    assert_eq!(outcome.context.statistics, statistics(1, 1, 0, 1));
    assert_eq!(outcome.level.current_dom_depth, None);
    assert_eq!(dom.data(root), Some(data(6, false, None)));
}

#[test]
fn replacements_go_without_matching() {
    let (mut dom, root, _) = family(0);
    let hint = StoredRestyleHint { restyle_self: false, restyle_descendants: false, replacements: 5 };
    let before = data(1, false, Some(hinted(hint)));
    dom.set_data(root, before);
    let damaged = RestyleData { damage: RestyleDamage { bits: 3 }, ..hinted(hint) };
    let replies = vec![
        RecalcReply::Replaced { results: results(8, false), data: before },
        RecalcReply::Cascaded(data(2, false, Some(damaged))),
    ];
    let outcome = run(SERVO, &mut dom, root, None, replies);
    assert_eq!(
        outcome.requests,
        vec![
            RecalcRequest::CascadeWithReplacements { hint },
            RecalcRequest::Cascade { parent: None, results: results(8, false), shareable: false },
        ]
    );
    assert_eq!(outcome.context.statistics, statistics(1, 1, 0, 0));
    let settled = RestyleData { damage: RestyleDamage { bits: 3 }, ..RestyleData::new() };
    assert_eq!(dom.data(root), Some(data(2, false, Some(settled))));
    assert!(!outcome.context.is_initial_style());
}

#[test]
fn recascade_takes_the_current_match_results() {
    let (mut dom, root, _) = family(0);
    let before = data(1, false, Some(recascade(NONE)));
    dom.set_data(root, before);
    let replies = vec![
        RecalcReply::Matched(results(4, false)),
        RecalcReply::Cascaded(data(2, false, before.restyle)),
    ];
    let outcome = run(SERVO, &mut dom, root, None, replies);
    assert_eq!(
        outcome.requests,
        vec![
            RecalcRequest::MatchResultsFromCurrentStyle,
            RecalcRequest::Cascade { parent: None, results: results(4, false), shareable: false },
        ]
    );
    assert_eq!(dom.data(root), Some(data(2, false, Some(RestyleData::new()))));
}

#[test]
fn recalculated_element_is_current() {
    let (mut dom, root, _) = family(2);
    let before = data(1, false, Some(recascade(SUBTREE)));
    dom.set_data(root, before);
    let replies = vec![
        cannot_share(before),
        RecalcReply::DomDepth(0),
        RecalcReply::Matched(results(5, false)),
        RecalcReply::Cascaded(data(9, false, before.restyle)),
    ];
    run(SERVO, &mut dom, root, None, replies);
    let after = dom.data(root).unwrap();
    assert!(after.has_current_styles());
    assert_eq!(after.restyle, Some(RestyleData::new()));
}

#[test]
fn new_styles_reach_every_styled_child() {
    let (mut dom, root, kids) = family(3);
    let text = dom.append_child(root, false);
    let before = data(1, false, Some(recascade(NONE)));
    dom.set_data(root, before);
    dom.set_data(kids[0], data(2, false, None));
    dom.set_data(kids[1], data(3, false, Some(hinted(SELF))));
    let replies = vec![
        RecalcReply::Matched(results(4, false)),
        RecalcReply::Cascaded(data(9, false, before.restyle)),
    ];
    run(SERVO, &mut dom, root, None, replies);
    assert_eq!(dom.data(kids[0]), Some(data(2, false, Some(recascade(NONE)))));
    assert_eq!(dom.data(kids[1]), Some(data(3, false, Some(recascade(SELF)))));
    // A child without styles gets blank data, and a text node none.
    assert_eq!(dom.data(kids[2]), Some(ElementData::new()));
    assert_eq!(dom.data(text), None);
    // Each child that was told will be visited.
    assert!(Restyle::node_needs_traversal(&dom, &SERVO, kids[0]));
    assert!(Restyle::node_needs_traversal(&dom, &SERVO, kids[1]));
    assert!(Restyle::node_needs_traversal(&dom, &SERVO, kids[2]));
}

#[test]
fn descendant_hint_is_handed_down_without_restyling_the_element() {
    let (mut dom, root, kids) = family(1);
    let descendants =
        StoredRestyleHint { restyle_self: false, restyle_descendants: true, replacements: 0 };
    dom.set_data(root, data(1, false, Some(hinted(descendants))));
    dom.set_data(kids[0], data(2, false, None));
    let outcome = run(SERVO, &mut dom, root, None, vec![]);
    assert_eq!(outcome.context.statistics, statistics(1, 0, 0, 0));
    assert_eq!(dom.data(root), Some(data(1, false, Some(RestyleData::new()))));
    assert_eq!(dom.data(kids[0]), Some(data(2, false, Some(hinted(SUBTREE)))));
}

#[test]
fn new_styles_and_the_propagated_hint_come_together() {
    let (mut dom, root, kids) = family(2);
    let before = data(1, false, Some(hinted(SUBTREE)));
    dom.set_data(root, before);
    dom.set_dirty_descendants(root);
    dom.set_data(kids[0], data(2, false, None));
    dom.set_data(kids[1], data(3, false, Some(hinted(SELF))));
    let replies = vec![
        cannot_share(before),
        RecalcReply::DomDepth(0),
        RecalcReply::Matched(results(5, false)),
        RecalcReply::Cascaded(data(9, false, before.restyle)),
    ];
    run(SERVO, &mut dom, root, None, replies);
    assert_eq!(dom.data(kids[0]), Some(data(2, false, Some(recascade(SUBTREE)))));
    assert_eq!(dom.data(kids[1]), Some(data(3, false, Some(recascade(SUBTREE)))));
    // The dirty bit of a visible element stays as it was.
    assert!(dom.has_dirty_descendants(root));
}

#[test]
fn dirty_descendants_alone_create_no_restyle_data() {
    let (mut dom, root, kids) = family(3);
    dom.set_data(root, data(1, false, None));
    dom.set_dirty_descendants(root);
    dom.set_data(kids[0], data(2, false, None));
    dom.set_data(kids[1], data(3, false, Some(hinted(SELF))));
    run(SERVO, &mut dom, root, None, vec![]);
    assert_eq!(dom.data(kids[0]), Some(data(2, false, None)));
    assert_eq!(dom.data(kids[1]), Some(data(3, false, Some(hinted(SELF)))));
    assert_eq!(dom.data(kids[2]), Some(ElementData::new()));
    assert!(dom.has_dirty_descendants(root));
}

#[test]
fn snapshots_of_children_are_expanded() {
    let (mut dom, root, kids) = family(2);
    dom.set_data(root, data(1, false, None));
    dom.set_dirty_descendants(root);
    dom.set_data(kids[0], data(2, false, Some(snapshot(70))));
    dom.set_data(kids[1], data(3, false, Some(snapshot(71))));
    let computed = RestyleHint {
        restyle_self: true,
        restyle_descendants: false,
        restyle_later_siblings: false,
        replacements: 0,
    };
    let replies = vec![RecalcReply::SnapshotHint(computed), RecalcReply::SnapshotHint(computed)];
    let outcome = run(SERVO, &mut dom, root, None, replies);
    assert_eq!(
        outcome.requests,
        vec![
            RecalcRequest::ExpandSnapshot { child: kids[0], snapshot: 70 },
            RecalcRequest::ExpandSnapshot { child: kids[1], snapshot: 71 },
        ]
    );
    assert_eq!(dom.data(kids[0]), Some(data(2, false, Some(hinted(SELF)))));
    assert_eq!(dom.data(kids[1]), Some(data(3, false, Some(hinted(SELF)))));
}

#[test]
fn later_siblings_are_told_and_earlier_ones_are_not() {
    let (mut dom, root, kids) = family(4);
    dom.set_data(root, data(1, false, None));
    dom.set_dirty_descendants(root);
    dom.set_data(kids[0], data(2, false, None));
    dom.set_data(kids[1], data(3, false, Some(snapshot(70))));
    dom.set_data(kids[2], data(4, false, None));
    dom.set_data(kids[3], data(5, false, Some(snapshot(71))));
    let siblings = RestyleHint {
        restyle_self: false,
        restyle_descendants: false,
        restyle_later_siblings: true,
        replacements: 0,
    };
    let nothing = RestyleHint { restyle_later_siblings: false, ..siblings };
    let replies = vec![RecalcReply::SnapshotHint(siblings), RecalcReply::SnapshotHint(nothing)];
    run(SERVO, &mut dom, root, None, replies);
    assert_eq!(dom.data(kids[0]), Some(data(2, false, None)));
    assert_eq!(dom.data(kids[1]), Some(data(3, false, Some(hinted(NONE)))));
    assert_eq!(dom.data(kids[2]), Some(data(4, false, Some(hinted(SUBTREE)))));
    assert_eq!(dom.data(kids[3]), Some(data(5, false, Some(hinted(SUBTREE)))));
}

#[test]
fn snapshot_and_changed_styles_come_together() {
    let (mut dom, root, kids) = family(1);
    let before = data(1, false, Some(recascade(SUBTREE)));
    dom.set_data(root, before);
    dom.set_data(kids[0], data(2, false, Some(snapshot(70))));
    let computed = RestyleHint {
        restyle_self: false,
        restyle_descendants: false,
        restyle_later_siblings: false,
        replacements: 2,
    };
    let replies = vec![
        cannot_share(before),
        RecalcReply::DomDepth(0),
        RecalcReply::Matched(results(5, false)),
        RecalcReply::Cascaded(data(9, false, before.restyle)),
        RecalcReply::SnapshotHint(computed),
    ];
    run(SERVO, &mut dom, root, None, replies);
    let all = StoredRestyleHint { replacements: 2, ..SUBTREE };
    assert_eq!(dom.data(kids[0]), Some(data(2, false, Some(recascade(all)))));
}

#[test]
fn hidden_subtree_loses_its_data() {
    let (mut dom, root, kids) = family(2);
    let inner = dom.append_child(kids[0], true);
    let before = data(1, false, Some(recascade(NONE)));
    dom.set_data(root, before);
    dom.set_data(kids[0], data(2, false, None));
    dom.set_data(inner, data(3, false, None));
    dom.set_dirty_descendants(root);
    dom.set_dirty_descendants(kids[0]);
    let replies = vec![
        RecalcReply::Matched(results(4, false)),
        RecalcReply::Cascaded(data(9, true, before.restyle)),
    ];
    run(SERVO, &mut dom, root, None, replies);
    assert_eq!(dom.data(root), Some(data(9, true, Some(RestyleData::new()))));
    assert!(!dom.has_dirty_descendants(root));
    assert!(!dom.has_dirty_descendants(kids[0]));
    for node in [kids[0], kids[1], inner] {
        assert_eq!(dom.data(node), None);
    }
}

#[test]
fn hidden_element_with_current_styles_loses_its_dirty_bit_only() {
    let (mut dom, root, kids) = family(1);
    dom.set_data(root, data(1, true, None));
    dom.set_data(kids[0], data(2, false, None));
    dom.set_dirty_descendants(root);
    run(SERVO, &mut dom, root, None, vec![]);
    assert!(!dom.has_dirty_descendants(root));
    assert_eq!(dom.data(kids[0]), Some(data(2, false, None)));
}

#[test]
fn first_styling_of_a_bound_element_leaves_the_children_alone_in_gecko() {
    let styles = ElementStyles { display_none: false, has_moz_binding: true, values: 9 };
    let bound = ElementData { styles: Some(styles), restyle: None };
    for (shared, kid_data) in [(GECKO, None), (SERVO, Some(ElementData::new()))] {
        let (mut dom, root, kids) = family(1);
        dom.set_data(root, ElementData::new());
        let replies = vec![
            cannot_share(ElementData::new()),
            RecalcReply::DomDepth(0),
            RecalcReply::Matched(results(5, false)),
            RecalcReply::Cascaded(bound),
        ];
        run(shared, &mut dom, root, None, replies);
        assert_eq!(dom.data(kids[0]), kid_data);
    }
}

#[test]
fn recalculation_is_local() {
    let (mut dom, root, kids) = family(2);
    let grandchild = dom.append_child(kids[0], true);
    dom.set_data(root, data(1, false, Some(recascade(NONE))));
    dom.set_dirty_descendants(root);
    let before = data(2, false, Some(recascade(SUBTREE)));
    dom.set_data(kids[0], before);
    dom.set_data(kids[1], data(3, false, Some(snapshot(70))));
    dom.set_dirty_descendants(kids[1]);
    dom.set_data(grandchild, data(4, false, None));
    let replies = vec![
        cannot_share(before),
        RecalcReply::DomDepth(1),
        RecalcReply::Matched(results(5, false)),
        RecalcReply::Cascaded(data(9, false, before.restyle)),
    ];
    run(SERVO, &mut dom, kids[0], None, replies);
    assert_eq!(dom.data(root), Some(data(1, false, Some(recascade(NONE)))));
    assert!(dom.has_dirty_descendants(root));
    assert_eq!(dom.data(kids[1]), Some(data(3, false, Some(snapshot(70)))));
    assert!(dom.has_dirty_descendants(kids[1]));
    assert_eq!(dom.data(grandchild), Some(data(4, false, Some(recascade(SUBTREE)))));
}

#[test]
fn second_recalculation_changes_nothing() {
    let (mut dom, root, kids) = family(1);
    let before = data(1, false, Some(recascade(SUBTREE)));
    dom.set_data(root, before);
    dom.set_data(kids[0], data(2, false, None));
    let replies = vec![
        cannot_share(before),
        RecalcReply::DomDepth(0),
        RecalcReply::Matched(results(5, false)),
        RecalcReply::Cascaded(data(9, false, before.restyle)),
    ];
    run(SERVO, &mut dom, root, None, replies);
    assert!(!Restyle::node_needs_traversal(&dom, &SERVO, root));
    let outcome = run(SERVO, &mut dom, root, None, vec![]);
    assert_eq!(outcome.context.statistics, statistics(1, 0, 0, 0));
    assert_eq!(dom.data(root), Some(data(9, false, Some(RestyleData::new()))));
    assert_eq!(dom.data(kids[0]), Some(data(2, false, Some(recascade(SUBTREE)))));
}

#[test]
fn counters_go_on_counting() {
    let (mut dom, root, _) = family(0);
    dom.set_data(root, data(1, false, None));
    let mut context = ThreadLocalStyleContext::new();
    context.statistics = statistics(10, 4, 3, 2);
    let level = PerLevelTraversalData { current_dom_depth: None };
    let recalc = recalc_style_at(&Restyle, &SERVO, &level, &mut context, &mut dom, root);
    assert_eq!(recalc.request, RecalcRequest::Done);
    assert_eq!(context.statistics, statistics(11, 4, 3, 2));
}

/// Styles a whole tree: the recalculation of an element, then the selection of its
/// children, and so on down.
#[test]
fn whole_tree_is_styled_and_then_quiet() {
    let (mut dom, root, kids) = family(2);
    let inner = dom.append_child(kids[1], true);
    dom.append_child(kids[1], false);
    dom.ensure_element_data(root);
    let mut context = ThreadLocalStyleContext::new();
    let mut queue = vec![(root, 0)];
    let mut order = Vec::new();
    while let Some((element, depth)) = queue.pop() {
        order.push(element);
        let mut level = PerLevelTraversalData { current_dom_depth: Some(depth) };
        let mut recalc =
            recalc_style_at(&Restyle, &SERVO, &level, &mut context, &mut dom, element);
        while recalc.request != RecalcRequest::Done {
            let reply = match recalc.request {
                RecalcRequest::ShareStyle => cannot_share(dom.data(element).unwrap()),
                RecalcRequest::InsertParents { current_dom_depth } => {
                    RecalcReply::DomDepth(current_dom_depth.unwrap())
                }
                RecalcRequest::Match => RecalcReply::Matched(results(element as u64, false)),
                RecalcRequest::Cascade { results, .. } => {
                    RecalcReply::Cascaded(data(results.primary, false, None))
                }
                other => panic!("unexpected request {:?}", other),
            };
            recalc.step(&Restyle, &SERVO, &mut level, &mut context, &mut dom, reply);
        }
        let mut walk = Restyle.traverse_children(&SERVO, &mut context, &dom, element);
        let mut enqueued = Vec::new();
        while let Some(kid) = walk.next::<Restyle>(&SERVO, &mut dom) {
            enqueued.push(kid);
        }
        for kid in enqueued.into_iter().rev() {
            queue.push((kid, depth + 1));
        }
    }
    assert_eq!(order, vec![root, kids[0], kids[1], inner]);
    assert_eq!(context.statistics, statistics(4, 4, 4, 0));
    for element in order {
        assert_eq!(dom.data(element), Some(data(element as u64, false, None)));
        assert!(!Restyle::node_needs_traversal(&dom, &SERVO, element));
    }
    assert!(!Restyle::pre_traverse(&mut dom, &SERVO, root, false, None).should_traverse());
}
