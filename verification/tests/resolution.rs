use style_traversal::context::MatchResults;
use style_traversal::data::{ElementData, ElementStyles, RestyleData};
use style_traversal::dom::{Dom, NodeId};
use style_traversal::resolve::{resolve_style, ResolveRequest};

fn results(primary: u64) -> MatchResults {
    MatchResults { primary, per_pseudo: 20, relations: 30, primary_is_shareable: primary % 2 == 0 }
}

fn styles(values: u64, display_none: bool) -> ElementStyles {
    ElementStyles { display_none, has_moz_binding: false, values }
}

fn data(values: u64, display_none: bool) -> ElementData {
    ElementData { styles: Some(styles(values, display_none)), restyle: None }
}

/// A chain of elements, each the child of the one before.
fn chain(length: usize, in_doc: bool) -> (Dom, Vec<NodeId>) {
    let mut dom = Dom::new();
    let mut ids = vec![dom.add_root(in_doc)];
    for _ in 1..length {
        let parent = ids[ids.len() - 1];
        ids.push(dom.append_child(parent, true));
    }
    (dom, ids)
}

/// What a resolution showed and cleared.
struct Outcome {
    cascades: Vec<(NodeId, Option<NodeId>)>,
    shown: ElementStyles,
    seen: Vec<Option<ElementData>>,
    cleared: Vec<NodeId>,
}

/// Resolves the style of `element`. An element gets its own name as its style, and
/// those in `hidden` get a `display: none` style.
fn resolve(dom: &mut Dom, element: NodeId, hidden: &[NodeId]) -> Outcome {
    let mut resolution = resolve_style(dom, element);
    let mut cascades = Vec::new();
    let shown = loop {
        match resolution.request() {
            ResolveRequest::Match { element } => {
                resolution.matched(dom, results(element as u64));
            }
            ResolveRequest::Cascade { element, parent, results: given, shareable } => {
                assert_eq!(given, results(element as u64));
                assert_eq!(shareable, element % 2 == 0);
                cascades.push((element, parent));
                resolution.cascaded(dom, data(element as u64, hidden.contains(&element)));
            }
            ResolveRequest::Callback { styles } => break styles,
        }
    };
    let seen = (0..dom.len()).map(|id| dom.data(id)).collect();
    let cleared = resolution.finish(dom);
    Outcome { cascades, shown, seen, cleared }
}

#[test]
fn styled_element_is_shown_at_once() {
    let (mut dom, ids) = chain(2, true);
    dom.set_data(ids[0], data(8, false));
    let pending = RestyleData { recascade: true, ..RestyleData::new() };
    let waiting = ElementData { restyle: Some(pending), ..data(9, false) };
    dom.set_data(ids[1], waiting);
    let outcome = resolve(&mut dom, ids[1], &[]);
    // Pending restyles are ignored.
    assert_eq!(outcome.shown, styles(9, false));
    assert_eq!(outcome.cascades, vec![]);
    assert_eq!(outcome.cleared, Vec::<NodeId>::new());
    assert_eq!(dom.data(ids[1]), Some(waiting));
}

#[test]
fn chain_is_styled_from_the_outside_in() {
    let (mut dom, ids) = chain(4, true);
    dom.set_data(ids[0], data(8, false));
    let outcome = resolve(&mut dom, ids[3], &[]);
    assert_eq!(
        outcome.cascades,
        vec![(ids[1], Some(ids[0])), (ids[2], Some(ids[1])), (ids[3], Some(ids[2]))]
    );
    assert_eq!(outcome.shown, styles(ids[3] as u64, false));
    assert_eq!(outcome.seen[ids[2]], Some(data(ids[2] as u64, false)));
}

#[test]
fn visible_resolution_clears_nothing_and_marks_what_it_styled() {
    let (mut dom, ids) = chain(3, true);
    dom.set_data(ids[0], data(8, false));
    let outcome = resolve(&mut dom, ids[2], &[]);
    assert_eq!(outcome.cleared, Vec::<NodeId>::new());
    assert!(!dom.has_dirty_descendants(ids[0]));
    assert!(dom.has_dirty_descendants(ids[1]));
    assert!(dom.has_dirty_descendants(ids[2]));
    assert_eq!(dom.data(ids[0]), Some(data(8, false)));
    assert_eq!(dom.data(ids[2]), Some(data(ids[2] as u64, false)));
}

#[test]
fn root_is_cascaded_without_a_parent() {
    let (mut dom, ids) = chain(1, true);
    let outcome = resolve(&mut dom, ids[0], &[]);
    assert_eq!(outcome.cascades, vec![(ids[0], None)]);
    assert_eq!(dom.data(ids[0]), Some(data(0, false)));
}

#[test]
fn hidden_resolution_keeps_the_root_of_the_hidden_subtree() {
    let (mut dom, ids) = chain(4, true);
    dom.set_data(ids[0], data(8, false));
    let outcome = resolve(&mut dom, ids[3], &[ids[1]]);
    assert_eq!(outcome.shown, styles(ids[3] as u64, false));
    assert_eq!(outcome.cleared, vec![ids[3], ids[2]]);
    assert_eq!(dom.data(ids[1]), Some(data(ids[1] as u64, true)));
    assert_eq!(dom.data(ids[2]), None);
    assert_eq!(dom.data(ids[3]), None);
    for id in ids {
        assert!(!dom.has_dirty_descendants(id));
    }
}

#[test]
fn outermost_hidden_element_is_the_one_that_counts() {
    let (mut dom, ids) = chain(4, true);
    let outcome = resolve(&mut dom, ids[3], &[ids[1], ids[2], ids[3]]);
    assert_eq!(outcome.shown, styles(ids[3] as u64, true));
    assert_eq!(outcome.cleared, vec![ids[3], ids[2]]);
    assert_eq!(dom.data(ids[1]), Some(data(ids[1] as u64, true)));
    // The root is visible and stays marked.
    assert!(dom.has_dirty_descendants(ids[0]));
    assert!(!dom.has_dirty_descendants(ids[1]));
}

#[test]
fn resolution_below_a_hidden_element_leaves_no_trace() {
    let (mut dom, ids) = chain(3, true);
    dom.set_data(ids[0], data(8, true));
    let outcome = resolve(&mut dom, ids[2], &[]);
    assert_eq!(outcome.shown, styles(ids[2] as u64, false));
    assert_eq!(outcome.cleared, vec![ids[2], ids[1]]);
    assert_eq!(dom.data(ids[0]), Some(data(8, true)));
    for id in &ids[1..] {
        assert_eq!(dom.data(*id), None);
        assert!(!dom.has_dirty_descendants(*id));
    }
}

#[test]
fn hidden_element_itself_keeps_its_styles() {
    let (mut dom, ids) = chain(2, true);
    dom.set_data(ids[0], data(8, false));
    dom.set_data(ids[1], data(9, true));
    dom.set_dirty_descendants(ids[1]);
    let outcome = resolve(&mut dom, ids[1], &[]);
    assert_eq!(outcome.shown, styles(9, true));
    assert_eq!(outcome.cleared, Vec::<NodeId>::new());
    assert_eq!(dom.data(ids[1]), Some(data(9, true)));
    assert!(!dom.has_dirty_descendants(ids[1]));
}

#[test]
fn styled_element_below_a_styled_hidden_one_is_not_looked_above() {
    let (mut dom, ids) = chain(2, true);
    dom.set_data(ids[0], data(8, true));
    dom.set_data(ids[1], data(9, false));
    let outcome = resolve(&mut dom, ids[1], &[]);
    assert_eq!(outcome.cleared, Vec::<NodeId>::new());
    assert_eq!(dom.data(ids[1]), Some(data(9, false)));
}

#[test]
fn disconnected_resolution_leaves_no_trace() {
    for hidden in [vec![], vec![1]] {
        let (mut dom, ids) = chain(3, false);
        let outcome = resolve(&mut dom, ids[2], &hidden);
        assert_eq!(outcome.shown, styles(ids[2] as u64, false));
        assert_eq!(outcome.cleared, vec![ids[2], ids[1], ids[0]]);
        for id in ids {
            assert_eq!(dom.data(id), None);
            assert!(!dom.has_dirty_descendants(id));
        }
    }
}

#[test]
fn disconnected_resolution_clears_styled_ancestors_too() {
    let (mut dom, ids) = chain(3, false);
    dom.set_data(ids[0], data(7, false));
    dom.set_data(ids[1], data(8, false));
    dom.set_dirty_descendants(ids[0]);
    let outcome = resolve(&mut dom, ids[2], &[]);
    assert_eq!(outcome.cascades, vec![(ids[2], Some(ids[1]))]);
    assert_eq!(outcome.cleared, vec![ids[2], ids[1], ids[0]]);
    assert_eq!(dom.data(ids[0]), None);
    assert!(!dom.has_dirty_descendants(ids[0]));
}

#[test]
fn resolution_keeps_data_rooted() {
    let (mut dom, ids) = chain(4, true);
    let aside = dom.append_child(ids[0], true);
    dom.set_data(ids[0], data(8, false));
    dom.set_data(aside, data(9, false));
    resolve(&mut dom, ids[3], &[ids[2]]);
    for id in 0..dom.len() {
        if dom.data(id).is_some() {
            if let Some(parent) = dom.parent_element(id) {
                assert!(dom.data(parent).is_some());
            }
        }
    }
    assert_eq!(dom.data(ids[2]), Some(data(ids[2] as u64, true)));
    assert_eq!(dom.data(aside), Some(data(9, false)));
}

#[test]
fn blank_data_on_the_way_up_does_no_harm() {
    let (mut dom, ids) = chain(3, true);
    dom.set_data(ids[0], data(8, false));
    dom.set_data(ids[1], ElementData::new());
    let outcome = resolve(&mut dom, ids[2], &[ids[1]]);
    assert_eq!(outcome.cleared, vec![ids[2]]);
    assert_eq!(dom.data(ids[1]), Some(data(ids[1] as u64, true)));
    assert_eq!(dom.data(ids[2]), None);
}

#[test]
fn callback_may_change_the_style_state() {
    let (mut dom, ids) = chain(2, false);
    dom.set_data(ids[0], data(8, false));
    dom.set_data(ids[1], data(9, false));
    let resolution = resolve_style(&mut dom, ids[1]);
    assert_eq!(resolution.request(), ResolveRequest::Callback { styles: styles(9, false) });
    dom.clear_element_data(ids[1]);
    dom.set_dirty_descendants(ids[0]);
    assert_eq!(resolution.finish(&mut dom), vec![ids[1], ids[0]]);
    assert_eq!(dom.data(ids[0]), None);
    assert!(!dom.has_dirty_descendants(ids[0]));
}
