//! What holds of style data in the tree, and of clearing it.

use vstd::prelude::*;

use crate::dom::{DomView, NodeId};

verus! {

/// If an element has data, all its ancestors have data as well. By consequence, an element
/// without data has no descendants with data.
pub proof fn law_ancestors_have_data(dom: DomView, ancestor: NodeId, node: NodeId)
    requires
        dom.well_formed(),
        dom.data_is_rooted(),
        dom.has(node),
        dom.data_of(node) is Some,
        dom.is_ancestor(ancestor, node),
    ensures
        dom.data_of(ancestor) is Some,
    decreases node,
{
    let p = dom.parent(node)->0;
    assert(dom.data_of(p) is Some);
    if p != ancestor {
        law_ancestors_have_data(dom, ancestor, p);
    }
}

/// After clearing below an element, no descendant of it has data.
pub proof fn law_clearing_reaches_all_descendants(dom: DomView, top: NodeId, node: NodeId)
    requires
        dom.well_formed(),
        dom.data_is_rooted(),
        dom.has(top),
        dom.has(node),
        dom.is_ancestor(top, node),
    ensures
        dom.cleared_below(top).data_of(node) is None,
    decreases node,
{
    if dom.data_of(node) is Some {
        lemma_rooted_data_leads(dom, top, node);
    }
}

/// Where data is rooted, it leads from every ancestor to every element with data.
proof fn lemma_rooted_data_leads(dom: DomView, top: NodeId, node: NodeId)
    requires
        dom.well_formed(),
        dom.data_is_rooted(),
        dom.has(node),
        dom.data_of(node) is Some,
        dom.is_ancestor(top, node),
    ensures
        dom.data_leads_to(top, node),
    decreases node,
{
    let p = dom.parent(node)->0;
    assert(dom.data_of(p) is Some);
    if p != top {
        lemma_rooted_data_leads(dom, top, p);
    }
}

/// Clearing below an element changes nothing outside of its subtree, and of the element
/// itself only the dirty bit, which is unset.
pub proof fn law_clearing_is_local(dom: DomView, top: NodeId, node: NodeId)
    requires
        dom.well_formed(),
        dom.has(top),
        dom.has(node),
        !dom.is_ancestor(top, node),
    ensures
        dom.cleared_below(top).data_of(node) == dom.data_of(node),
        dom.cleared_below(top).dirty_of(node) == (dom.dirty_of(node) && node != top),
{
    dom.lemma_leads_from_ancestor(top, node);
}

/// Clearing below an element keeps the data of the tree rooted.
pub proof fn law_clearing_keeps_data_rooted(dom: DomView, top: NodeId)
    requires
        dom.well_formed(),
        dom.data_is_rooted(),
        dom.has(top),
    ensures
        dom.cleared_below(top).data_is_rooted(),
        dom.cleared_below(top).well_formed(),
{
    let after = dom.cleared_below(top);
    dom.lemma_well_formed_update(after);
    assert forall|n: NodeId|
        #![trigger after.data_of(n)]
        after.has(n) && after.data_of(n) is Some && after.parent(n) is Some implies after.data_of(
        after.parent(n)->0,
    ) is Some by {
        let p = dom.tree[n as int].parent->0;
        assert(dom.data_of(n) is Some);
        assert(dom.data_of(p) is Some);
    }
}

/// The elements that clearing reports are exactly those that lose their data, and each is
/// reported once.
pub proof fn law_clear_order_is_complete(dom: DomView, top: NodeId)
    requires
        dom.well_formed(),
        dom.has(top),
    ensures
        dom.clear_order(top).no_duplicates(),
        forall|n: NodeId|
            #![trigger dom.clear_order(top).contains(n)]
            dom.clear_order(top).contains(n) == (dom.has(n) && dom.data_leads_to(top, n)),
{
    lemma_clear_order_from(dom, top, 0);
    assert forall|n: NodeId|
        #![trigger dom.clear_order(top).contains(n)]
        dom.clear_order(top).contains(n) == (dom.has(n) && dom.data_leads_to(top, n)) by {
        if dom.has(n) {
            dom.lemma_branches_are_all(top, n);
            if dom.data_leads_to(top, n) {
                let j = choose|j: int|
                    0 <= j < dom.children(top).len() && #[trigger] dom.in_branch(
                        dom.children(top)[j],
                        n,
                    );
                assert(dom.in_branch(dom.children(top)[j], n));
            }
            if dom.clear_order(top).contains(n) {
                let j = choose|j: int|
                    0 <= j < dom.children(top).len() && #[trigger] dom.in_branch(
                        dom.children(top)[j],
                        n,
                    );
                assert(dom.in_branch(dom.children(top)[j], n));
            }
        }
    }
}

/// The report from a position on holds the branches of the children from there on.
proof fn lemma_clear_order_from(dom: DomView, top: NodeId, from: int)
    requires
        dom.well_formed(),
        dom.has(top),
        0 <= from,
    ensures
        dom.clear_order_from(top, from).no_duplicates(),
        forall|n: NodeId|
            #![trigger dom.clear_order_from(top, from).contains(n)]
            dom.clear_order_from(top, from).contains(n) == (dom.has(n) && exists|j: int|
                from <= j < dom.children(top).len() && #[trigger] dom.in_branch(
                    dom.children(top)[j],
                    n,
                )),
    decreases dom.len() - top, dom.children(top).len() - from,
{
    let kids = dom.children(top);
    let all = dom.clear_order_from(top, from);
    if from < kids.len() {
        let kid = kids[from];
        let rest = dom.clear_order_from(top, from + 1);
        assert(top < kid < dom.len());
        lemma_clear_order_from(dom, top, from + 1);
        if dom.data_of(kid) is Some {
            let below = dom.clear_order_from(kid, 0);
            lemma_clear_order_from(dom, kid, 0);
            assert(all == seq![kid] + below + rest);
            assert forall|n: NodeId| #[trigger] below.contains(n) == (dom.has(n)
                && dom.data_leads_to(kid, n)) by {
                if dom.has(n) {
                    dom.lemma_branches_are_all(kid, n);
                }
            }
            assert forall|n: NodeId| dom.has(n) && dom.in_branch(kid, n) implies !(
            #[trigger] rest.contains(n)) by {
                if rest.contains(n) {
                    let j = choose|j: int|
                        from + 1 <= j < kids.len() && #[trigger] dom.in_branch(kids[j], n);
                    dom.lemma_leads_from_ancestor(kid, n);
                    dom.lemma_leads_from_ancestor(kids[j], n);
                    assert(dom.parent(kids[j]) == Some(top) && dom.parent(kid) == Some(top));
                    if n == kid {
                        dom.lemma_siblings_are_apart(kids[j], kid, n);
                    } else {
                        dom.lemma_siblings_are_apart(kid, kids[j], n);
                    }
                }
            }
            dom.lemma_leads_from_ancestor(kid, kid);
            assert(!below.contains(kid));
            assert(!rest.contains(kid)) by {
                assert(dom.in_branch(kid, kid));
            }
            let front = seq![kid] + below;
            assert(front.no_duplicates()) by {
                assert forall|i: int, j: int| 0 <= i < front.len() && 0 <= j < front.len() && i != j
                    implies front[i] != front[j] by {
                    if i == 0 {
                        assert(below.contains(below[j - 1]));
                    } else if j == 0 {
                        assert(below.contains(below[i - 1]));
                    }
                }
            }
            assert forall|n: NodeId| #[trigger] front.contains(n) == (n == kid || below.contains(
                n,
            )) by {
                if below.contains(n) {
                    assert(front[below.index_of(n) + 1] == n);
                }
                if n == kid {
                    assert(front[0] == n);
                }
            }
            assert(all.no_duplicates()) by {
                assert forall|i: int, j: int| 0 <= i < all.len() && 0 <= j < all.len() && i != j
                    implies all[i] != all[j] by {
                    if i < front.len() && j >= front.len() {
                        assert(front.contains(front[i]));
                        assert(rest.contains(rest[j - front.len()]));
                    } else if j < front.len() && i >= front.len() {
                        assert(front.contains(front[j]));
                        assert(rest.contains(rest[i - front.len()]));
                    }
                }
            }
            assert forall|n: NodeId| #[trigger] all.contains(n) == (front.contains(n)
                || rest.contains(n)) by {
                if front.contains(n) {
                    assert(all[front.index_of(n)] == n);
                }
                if rest.contains(n) {
                    assert(all[rest.index_of(n) + front.len()] == n);
                }
            }
        } else {
            assert(all == rest);
        }
        assert forall|n: NodeId| #[trigger] all.contains(n) == (dom.has(n) && exists|j: int|
            from <= j < kids.len() && #[trigger] dom.in_branch(kids[j], n)) by {
            if dom.has(n) && exists|j: int|
                from <= j < kids.len() && #[trigger] dom.in_branch(kids[j], n) {
                let j = choose|j: int|
                    from <= j < kids.len() && #[trigger] dom.in_branch(kids[j], n);
                if j > from {
                    assert(dom.in_branch(kids[j], n));
                    assert(rest.contains(n));
                }
            }
            if all.contains(n) {
                if rest.contains(n) {
                    let j = choose|j: int|
                        from + 1 <= j < kids.len() && #[trigger] dom.in_branch(kids[j], n);
                    assert(dom.in_branch(kids[j], n));
                } else {
                    assert(dom.in_branch(kids[from], n));
                }
            }
        }
    }
}

/// No way of data leads below an element once everything below it has been cleared.
proof fn lemma_nothing_leads_after_clearing(dom: DomView, top: NodeId, node: NodeId)
    requires
        dom.well_formed(),
        dom.has(top),
        dom.has(node),
    ensures
        !dom.cleared_below(top).data_leads_to(top, node),
    decreases node,
{
    let after = dom.cleared_below(top);
    if after.data_leads_to(top, node) {
        let p = dom.tree[node as int].parent->0;
        assert(after.data_of(node) == after.data[node as int]);
        assert(dom.data_of(node) is Some);
        if p != top {
            lemma_nothing_leads_after_clearing(dom, top, p);
        }
    }
}

/// Clearing below an element a second time reports nothing and changes nothing.
pub proof fn law_second_clearing_changes_nothing(dom: DomView, top: NodeId)
    requires
        dom.well_formed(),
        dom.has(top),
    ensures
        dom.cleared_below(top).cleared_below(top) == dom.cleared_below(top),
        dom.cleared_below(top).clear_order(top).len() == 0,
{
    let after = dom.cleared_below(top);
    let order = after.clear_order(top);
    dom.lemma_well_formed_update(after);
    assert forall|n: NodeId| dom.has(n) implies !(#[trigger] after.data_leads_to(top, n)) by {
        lemma_nothing_leads_after_clearing(dom, top, n);
    }
    assert(after.cleared_below(top) =~= after);
    law_clear_order_is_complete(after, top);
    if order.len() > 0 {
        assert(order.contains(order[0]));
    }
}

/// A way of data leads from an element to a node below it exactly if the node and everything
/// in between has data.
proof fn lemma_way_of_data(dom: DomView, top: NodeId, node: NodeId)
    requires
        dom.well_formed(),
        dom.has(node),
    ensures
        dom.data_leads_to(top, node) <==> {
            &&& dom.is_ancestor(top, node)
            &&& forall|m: NodeId|
                #![trigger dom.data_of(m)]
                dom.is_inclusive_ancestor(m, node) && dom.is_ancestor(top, m) ==> dom.data_of(m)
                    is Some
        },
    decreases node,
{
    dom.lemma_leads_from_ancestor(top, node);
    if dom.is_ancestor(top, node) {
        let p = dom.tree[node as int].parent->0;
        assert(dom.is_inclusive_ancestor(node, node));
        if p == top {
            assert forall|m: NodeId|
                #![trigger dom.data_of(m)]
                dom.is_inclusive_ancestor(m, node) && dom.is_ancestor(top, m) implies m == node by {
                dom.lemma_leads_from_ancestor(m, p);
                dom.lemma_leads_from_ancestor(top, m);
            }
            assert(dom.data_leads_to(top, node) == dom.data_of(node) is Some);
        } else {
            lemma_way_of_data(dom, top, p);
            assert forall|m: NodeId|
                #![trigger dom.data_of(m)]
                dom.is_inclusive_ancestor(m, node) == (m == node || dom.is_inclusive_ancestor(
                    m,
                    p,
                )) by {}
        }
    }
}

/// Clearing below an element takes the data of exactly those nodes below it that have data
/// and are reached through elements with data alone. Each of them loses its dirty bit as
/// well, and so does the element itself. All else stays.
pub proof fn law_clearing_takes_what_data_leads_to(dom: DomView, top: NodeId, node: NodeId)
    requires
        dom.well_formed(),
        dom.has(top),
        dom.has(node),
    ensures
        ({
            let after = dom.cleared_below(top);
            let loses = dom.is_ancestor(top, node) && forall|m: NodeId|
                #![trigger dom.data_of(m)]
                dom.is_inclusive_ancestor(m, node) && dom.is_ancestor(top, m) ==> dom.data_of(m)
                    is Some;
            &&& after.tree == dom.tree
            &&& after.data[node as int] == if loses {
                None
            } else {
                dom.data[node as int]
            }
            &&& after.dirty[node as int] <==> (dom.dirty[node as int] && node != top && !loses)
        }),
{
    lemma_way_of_data(dom, top, node);
}

/// Whether `first` comes before `second` in document order: it is an ancestor of it, or lies
/// in an earlier branch of the same element.
pub open spec fn comes_before(dom: DomView, first: NodeId, second: NodeId) -> bool {
    ||| dom.is_ancestor(first, second)
    ||| exists|fork: NodeId, i: int, j: int|
        {
            &&& dom.has(fork)
            &&& 0 <= i < j < dom.children(fork).len()
            &&& dom.is_inclusive_ancestor(#[trigger] dom.children(fork)[i], first)
            &&& dom.is_inclusive_ancestor(#[trigger] dom.children(fork)[j], second)
        }
}

/// The elements that clearing reports come in document order.
pub proof fn law_clear_order_is_document_order(dom: DomView, top: NodeId, earlier: int, later: int)
    requires
        dom.well_formed(),
        dom.has(top),
        0 <= earlier < later < dom.clear_order(top).len(),
    ensures
        comes_before(dom, dom.clear_order(top)[earlier], dom.clear_order(top)[later]),
{
    lemma_document_order_from(dom, top, 0, earlier, later);
}

/// The report from a position on comes in document order.
proof fn lemma_document_order_from(
    dom: DomView,
    top: NodeId,
    from: int,
    earlier: int,
    later: int,
)
    requires
        dom.well_formed(),
        dom.has(top),
        0 <= from,
        0 <= earlier < later < dom.clear_order_from(top, from).len(),
    ensures
        comes_before(
            dom,
            dom.clear_order_from(top, from)[earlier],
            dom.clear_order_from(top, from)[later],
        ),
    decreases dom.len() - top, dom.children(top).len() - from,
{
    let kids = dom.children(top);
    let all = dom.clear_order_from(top, from);
    let kid = kids[from];
    let rest = dom.clear_order_from(top, from + 1);
    assert(top < kids[from] < dom.len());
    if dom.data_of(kid) is Some {
        let below = dom.clear_order_from(kid, 0);
        let size = below.len() + 1;
        assert(all == seq![kid] + below + rest);
        lemma_clear_order_from(dom, kid, 0);
        lemma_clear_order_from(dom, top, from + 1);
        let (first, second) = (all[earlier], all[later]);
        if earlier < size {
            assert(dom.is_inclusive_ancestor(kid, first)) by {
                if earlier > 0 {
                    assert(below.contains(below[earlier - 1]));
                    dom.lemma_branches_are_all(kid, first);
                    dom.lemma_leads_from_ancestor(kid, first);
                }
            }
        }
        if later < size {
            if earlier == 0 {
                assert(below.contains(below[later - 1]));
                dom.lemma_branches_are_all(kid, second);
                dom.lemma_leads_from_ancestor(kid, second);
            } else {
                assert(first == below[earlier - 1] && second == below[later - 1]);
                lemma_document_order_from(dom, kid, 0, earlier - 1, later - 1);
            }
        } else if earlier < size {
            assert(rest.contains(rest[later - size]));
            let j = choose|j: int|
                from + 1 <= j < kids.len() && #[trigger] dom.in_branch(kids[j], second);
            dom.lemma_leads_from_ancestor(kids[j], second);
            assert(dom.is_inclusive_ancestor(kids[j], second));
            assert(dom.is_inclusive_ancestor(dom.children(top)[from], first));
        } else {
            assert(first == rest[earlier - size] && second == rest[later - size]);
            lemma_document_order_from(dom, top, from + 1, earlier - size, later - size);
        }
    } else {
        assert(all == rest);
        lemma_document_order_from(dom, top, from + 1, earlier, later);
    }
}

} // verus!
