use style_traversal::clearing::clear_descendant_data;
use style_traversal::data::{ElementData, ElementStyles};
use style_traversal::dom::{Dom, NodeId};

fn data(values: u64) -> ElementData {
    let styles = ElementStyles { display_none: false, has_moz_binding: false, values };
    ElementData { styles: Some(styles), restyle: None }
}

/// A root with an element that has two element children, a text node, and an element
/// without children.
fn sample() -> (Dom, Vec<NodeId>) {
    let mut dom = Dom::new();
    let root = dom.add_root(true);
    let first = dom.append_child(root, true);
    let inner = dom.append_child(first, true);
    let other = dom.append_child(first, true);
    let text = dom.append_child(root, false);
    let last = dom.append_child(root, true);
    (dom, vec![root, first, inner, other, text, last])
}

#[test]
fn tree_keeps_document_order() {
    let (dom, ids) = sample();
    assert_eq!(dom.len(), 6);
    assert_eq!(dom.child_count(ids[0]), 3);
    assert_eq!(dom.child(ids[0], 0), ids[1]);
    assert_eq!(dom.child(ids[0], 1), ids[4]);
    assert_eq!(dom.child(ids[0], 2), ids[5]);
    assert_eq!(dom.parent_element(ids[0]), None);
    assert_eq!(dom.parent_element(ids[3]), Some(ids[1]));
    assert!(dom.is_element(ids[1]));
    assert!(!dom.is_element(ids[4]));
    assert_eq!(dom.child_count(ids[4]), 0);
}

#[test]
fn next_sibling_element_skips_text() {
    let (dom, ids) = sample();
    assert_eq!(dom.next_sibling_element(ids[1]), Some(ids[5]));
    assert_eq!(dom.next_sibling_element(ids[2]), Some(ids[3]));
    assert_eq!(dom.next_sibling_element(ids[4]), Some(ids[5]));
    assert_eq!(dom.next_sibling_element(ids[5]), None);
    assert_eq!(dom.next_sibling_element(ids[0]), None);
}

#[test]
fn children_are_in_the_document_where_the_root_is() {
    let mut dom = Dom::new();
    let inside = dom.add_root(true);
    let outside = dom.add_root(false);
    let a = dom.append_child(inside, true);
    let b = dom.append_child(outside, true);
    assert!(dom.is_in_doc(inside) && dom.is_in_doc(a));
    assert!(!dom.is_in_doc(outside) && !dom.is_in_doc(b));
}

#[test]
fn element_data_is_ensured_set_and_cleared() {
    let (mut dom, ids) = sample();
    assert_eq!(dom.data(ids[0]), None);
    assert_eq!(dom.ensure_element_data(ids[0]), ElementData::new());
    assert_eq!(dom.data(ids[0]), Some(ElementData::new()));
    dom.set_data(ids[0], data(4));
    assert_eq!(dom.ensure_element_data(ids[0]), data(4));
    dom.clear_element_data(ids[0]);
    assert_eq!(dom.data(ids[0]), None);
}

#[test]
fn dirty_bit_is_set_and_unset() {
    let (mut dom, ids) = sample();
    assert!(!dom.has_dirty_descendants(ids[1]));
    dom.set_dirty_descendants(ids[1]);
    assert!(dom.has_dirty_descendants(ids[1]));
    assert!(!dom.has_dirty_descendants(ids[0]));
    dom.unset_dirty_descendants(ids[1]);
    assert!(!dom.has_dirty_descendants(ids[1]));
}

#[test]
fn clearing_reaches_all_descendants() {
    let (mut dom, ids) = sample();
    for id in [ids[0], ids[1], ids[2], ids[3], ids[5]] {
        dom.set_data(id, data(1));
        dom.set_dirty_descendants(id);
    }
    let cleared = clear_descendant_data(&mut dom, ids[0]);
    assert_eq!(cleared, vec![ids[1], ids[2], ids[3], ids[5]]);
    for id in [ids[1], ids[2], ids[3], ids[5]] {
        assert_eq!(dom.data(id), None);
        assert!(!dom.has_dirty_descendants(id));
    }
    assert_eq!(dom.data(ids[0]), Some(data(1)));
    assert!(!dom.has_dirty_descendants(ids[0]));
}

#[test]
fn clearing_is_local() {
    let (mut dom, ids) = sample();
    for id in [ids[0], ids[1], ids[2], ids[5]] {
        dom.set_data(id, data(2));
        dom.set_dirty_descendants(id);
    }
    assert_eq!(clear_descendant_data(&mut dom, ids[1]), vec![ids[2]]);
    assert_eq!(dom.data(ids[0]), Some(data(2)));
    assert!(dom.has_dirty_descendants(ids[0]));
    assert_eq!(dom.data(ids[5]), Some(data(2)));
    assert!(dom.has_dirty_descendants(ids[5]));
    assert_eq!(dom.data(ids[1]), Some(data(2)));
    assert!(!dom.has_dirty_descendants(ids[1]));
}

#[test]
fn clearing_does_not_look_below_elements_without_data() {
    let (mut dom, ids) = sample();
    dom.set_data(ids[0], data(1));
    dom.set_data(ids[2], data(3));
    dom.set_dirty_descendants(ids[1]);
    assert_eq!(clear_descendant_data(&mut dom, ids[0]), Vec::<NodeId>::new());
    assert_eq!(dom.data(ids[2]), Some(data(3)));
    assert!(dom.has_dirty_descendants(ids[1]));
}

#[test]
fn clearing_keeps_data_rooted() {
    let (mut dom, ids) = sample();
    for id in [ids[0], ids[1], ids[2], ids[3], ids[5]] {
        dom.set_data(id, data(1));
    }
    clear_descendant_data(&mut dom, ids[1]);
    for id in 0..dom.len() {
        if dom.data(id).is_some() {
            if let Some(parent) = dom.parent_element(id) {
                assert!(dom.data(parent).is_some());
            }
        }
    }
    assert!(dom.data(ids[1]).is_some() && dom.data(ids[5]).is_some());
    assert!(dom.data(ids[2]).is_none() && dom.data(ids[3]).is_none());
}

#[test]
fn clearing_an_element_without_children_unsets_its_bit() {
    let (mut dom, ids) = sample();
    dom.set_data(ids[5], data(1));
    dom.set_dirty_descendants(ids[5]);
    assert_eq!(clear_descendant_data(&mut dom, ids[5]), Vec::<NodeId>::new());
    assert!(!dom.has_dirty_descendants(ids[5]));
    assert_eq!(dom.data(ids[5]), Some(data(1)));
}

#[test]
fn second_clearing_changes_nothing() {
    let (mut dom, ids) = sample();
    for id in [ids[0], ids[1], ids[2], ids[3]] {
        dom.set_data(id, data(1));
    }
    assert_eq!(clear_descendant_data(&mut dom, ids[0]), vec![ids[1], ids[2], ids[3]]);
    assert_eq!(clear_descendant_data(&mut dom, ids[0]), Vec::<NodeId>::new());
    assert_eq!(dom.data(ids[0]), Some(data(1)));
    assert_eq!(dom.data(ids[1]), None);
}
