//! What the operations on a tree change, and what they leave alone.

use vstd::prelude::*;

use crate::data::ElementData;
use crate::dom::{DomView, NodeId};

verus! {

/// What is read of a node is what the tree holds for it.
pub proof fn law_nodes_are_read_as_they_are(dom: DomView, node: NodeId)
    requires
        dom.well_formed(),
        dom.has(node),
    ensures
        dom.parent(node) == dom.tree[node as int].parent,
        dom.children(node) == dom.tree[node as int].children@,
        dom.has_element(node) <==> dom.tree[node as int].is_element,
        dom.data_of(node) == dom.data[node as int],
        dom.dirty_of(node) == dom.dirty[node as int],
        dom.styled(node) <==> (dom.data[node as int] matches Some(data) && data.styles is Some),
        dom.hides(node) <==> (dom.data[node as int] matches Some(data) && data.styles matches Some(
            styles,
        ) && styles.display_none),
{
}

/// Replacing the style data of a node changes the data of that node and nothing else, and so
/// does replacing its dirty bit.
pub proof fn law_replacing_changes_one_node(
    dom: DomView,
    node: NodeId,
    data: Option<ElementData>,
    dirty: bool,
    other: NodeId,
)
    requires
        dom.well_formed(),
        dom.has(node),
        dom.has(other),
    ensures
        dom.with_data(node, data).tree == dom.tree,
        dom.with_data(node, data).dirty == dom.dirty,
        dom.with_data(node, data).data[other as int] == if other == node {
            data
        } else {
            dom.data[other as int]
        },
        dom.with_dirty(node, dirty).tree == dom.tree,
        dom.with_dirty(node, dirty).data == dom.data,
        dom.with_dirty(node, dirty).dirty[other as int] == if other == node {
            dirty
        } else {
            dom.dirty[other as int]
        },
{
}

/// Ensuring the data of a node gives it blank data if it had none, and changes nothing
/// otherwise.
pub proof fn law_ensuring_gives_blank_data(dom: DomView, node: NodeId, other: NodeId)
    requires
        dom.well_formed(),
        dom.has(node),
        dom.has(other),
    ensures
        dom.with_ensured(node).tree == dom.tree,
        dom.with_ensured(node).dirty == dom.dirty,
        dom.with_ensured(node).data[other as int] == if other == node && dom.data[node as int]
            is None {
            Some(ElementData { styles: None, restyle: None })
        } else {
            dom.data[other as int]
        },
{
}

/// The ancestors of a node are its parent and the ancestors of its parent, and a root has
/// none.
pub proof fn law_ancestors_go_by_parents(dom: DomView, ancestor: NodeId, node: NodeId)
    requires
        dom.well_formed(),
        dom.has(node),
    ensures
        match dom.tree[node as int].parent {
            Some(parent) => dom.is_ancestor(ancestor, node) <==> (ancestor == parent
                || dom.is_ancestor(ancestor, parent)),
            None => !dom.is_ancestor(ancestor, node),
        },
{
}

/// The first element from a position on is an element, and there is none before it.
proof fn lemma_element_from(dom: DomView, siblings: Seq<NodeId>, from: int)
    requires
        0 <= from <= siblings.len(),
    ensures
        match dom.element_from(siblings, from) {
            Some(found) => exists|k: int|
                {
                    &&& from <= k < siblings.len()
                    &&& #[trigger] siblings[k] == found
                    &&& dom.tree[found as int].is_element
                    &&& forall|j: int|
                        from <= j < k ==> !dom.tree[#[trigger] siblings[j] as int].is_element
                },
            None => forall|j: int|
                from <= j < siblings.len() ==> !dom.tree[#[trigger] siblings[j] as int].is_element,
        },
    decreases siblings.len() - from,
{
    if from < siblings.len() {
        if dom.tree[siblings[from] as int].is_element {
            assert(siblings[from] == dom.element_from(siblings, from)->0);
        } else {
            lemma_element_from(dom, siblings, from + 1);
            if let Some(found) = dom.element_from(siblings, from) {
                let k = choose|k: int|
                    {
                        &&& from + 1 <= k < siblings.len()
                        &&& #[trigger] siblings[k] == found
                        &&& dom.tree[found as int].is_element
                        &&& forall|j: int|
                            from + 1 <= j < k
                                ==> !dom.tree[#[trigger] siblings[j] as int].is_element
                    };
                assert(siblings[k] == found);
            }
        }
    }
}

/// The next sibling element of a child is the first element after it among the children of
/// its parent. There is none exactly if only text follows.
pub proof fn law_next_sibling_element_is_the_nearest(dom: DomView, parent: NodeId, position: int)
    requires
        dom.well_formed(),
        dom.has(parent),
        0 <= position < dom.children(parent).len(),
    ensures
        ({
            let kids = dom.children(parent);
            match dom.next_sibling_element(kids[position]) {
                Some(next) => exists|k: int|
                    {
                        &&& position < k < kids.len()
                        &&& #[trigger] kids[k] == next
                        &&& dom.tree[next as int].is_element
                        &&& forall|j: int|
                            position < j < k ==> !dom.tree[#[trigger] kids[j] as int].is_element
                    },
                None => forall|j: int|
                    position < j < kids.len() ==> !dom.tree[#[trigger] kids[j] as int].is_element,
            }
        }),
{
    let kids = dom.children(parent);
    assert(dom.parent(kids[position]) == Some(parent));
    assert(kids.no_duplicates());
    assert(kids.index_of(kids[position]) == position);
    lemma_element_from(dom, kids, position + 1);
}

/// A root has no sibling.
pub proof fn law_root_has_no_sibling(dom: DomView, root: NodeId)
    requires
        dom.has(root),
        dom.tree[root as int].parent is None,
    ensures
        dom.next_sibling_element(root) is None,
{
}

/// A node that is added has neither data nor a dirty bit nor children, and no other node
/// changes its data or dirty bit.
pub proof fn law_new_node_is_blank(before: DomView, after: DomView, node: NodeId, other: NodeId)
    requires
        before.well_formed(),
        before.grows_to(after, node),
        before.has(other),
    ensures
        node == before.tree.len(),
        after.tree.len() == before.tree.len() + 1,
        after.data[node as int] is None,
        !after.dirty[node as int],
        after.tree[node as int].children@.len() == 0,
        after.data[other as int] == before.data[other as int],
        after.dirty[other as int] == before.dirty[other as int],
{
}

} // verus!
