//! What holds of trees that are built by insertion and read by search.

use vstd::prelude::*;
use vstd::seq_lib::{lemma_no_dup_in_concat, lemma_seq_concat_contains_all_elements};
use crate::search::{
    consistent, descends_to, goes_left, hit, inserted, insert_slot, lemma_search_step, lemma_slot,
    lemma_walk_step, next_axis, query_high, query_low, root_after, search_seq, tree_hull,
};
use crate::shape::{
    acyclic, attach, height, is_free, is_fresh, is_tree, lemma_attach_acyclic,
    lemma_attach_nodes, lemma_leaf, lemma_nodes_step, lemma_preorder_distinct,
    lemma_preorder_lists_nodes, lemma_root_not_below, lemma_step_down, nodes_of, preorder,
    unshared, Side,
};
use crate::spatial::{BoundingBox, Point, SpatialPoint};
use crate::storage::{links_of, Linked, Node};

verus! {

/// A node that was just allocated shows through a linker as a leaf with the
/// region and the payload that it was allocated with, and the nodes that were
/// there before show as they did.
pub proof fn lemma_allocation_round_trip<P: Point, T>(arena: Seq<Node<P, T>>, point: P, data: T)
    requires
        arena.len() <= usize::MAX,
    ensures
        ({
            let index = arena.len() as usize;
            let after = links_of(arena.push((Node { point, data, left: None, right: None })));
            &&& after.dom() == links_of(arena).dom().insert(index)
            &&& after[index] == (Linked { point, data, left: None::<usize>, right: None::<usize> })
            &&& forall|earlier: usize| #[trigger]
                links_of(arena).contains_key(earlier) ==> after[earlier] == links_of(
                    arena,
                )[earlier]
        }),
{
    let index = arena.len() as usize;
    let after = links_of(arena.push(Node { point, data, left: None, right: None }));
    assert(after.dom() =~= links_of(arena).dom().insert(index));
}

/// Insertion changes no region and no payload, and adds and removes no node
/// of the linker.
pub proof fn lemma_insert_keeps_payload<P: Point, T, R>(
    m: Map<R, Linked<P, T, R>>,
    root: Option<R>,
    new_node: R,
    axis: nat,
)
    requires
        acyclic(m, root),
    ensures
        inserted(m, root, new_node, axis).dom() == m.dom(),
        forall|x: R| #[trigger]
            m.contains_key(x) ==> {
                &&& inserted(m, root, new_node, axis)[x].point == m[x].point
                &&& inserted(m, root, new_node, axis)[x].data == m[x].data
            },
{
    if let Some(r) = root {
        lemma_slot(m, r, m[new_node].point, axis);
        assert(inserted(m, root, new_node, axis).dom() =~= m.dom());
    }
}

/// Inserting a fresh node gives a tree with the same nodes and the new one,
/// and at most one level more.
pub proof fn lemma_insert_adds_node<P: Point, T, R>(
    m: Map<R, Linked<P, T, R>>,
    root: Option<R>,
    new_node: R,
    axis: nat,
)
    requires
        acyclic(m, root),
        is_fresh(m, root, new_node),
    ensures
        acyclic(inserted(m, root, new_node, axis), Some(root_after(root, new_node))),
        nodes_of(inserted(m, root, new_node, axis), Some(root_after(root, new_node))) == nodes_of(
            m,
            root,
        ).insert(new_node),
        height(inserted(m, root, new_node, axis), Some(root_after(root, new_node))) <= height(
            m,
            root,
        ) + 1,
{
    match root {
        None => {
            lemma_leaf(m, new_node);
        },
        Some(r) => {
            let slot = insert_slot(m, r, m[new_node].point, axis);
            lemma_slot(m, r, m[new_node].point, axis);
            lemma_attach_acyclic(m, slot, new_node, root);
            lemma_attach_nodes(m, slot, new_node, root);
        },
    }
}

/// Linking a fresh leaf to a free child link of a tree shares no node.
pub proof fn lemma_attach_unshared<P, T, R>(
    m: Map<R, Linked<P, T, R>>,
    slot: (R, Side),
    child: R,
    root: Option<R>,
)
    requires
        is_tree(m, root),
        is_fresh(m, root, child),
        is_free(m, slot),
    ensures
        unshared(attach(m, slot, child), root),
    decreases height(m, root),
{
    let after = attach(m, slot, child);
    lemma_attach_acyclic(m, slot, child, root);
    if let Some(r) = root {
        lemma_step_down(m, r);
        lemma_step_down(after, r);
        lemma_root_not_below(m, r);
        lemma_attach_unshared(m, slot, child, m[r].left);
        lemma_attach_unshared(m, slot, child, m[r].right);
        lemma_attach_nodes(m, slot, child, m[r].left);
        lemma_attach_nodes(m, slot, child, m[r].right);
        if r == slot.0 {
            // One child of `r` is the new leaf now; the other is as it was.
            lemma_leaf(after, child);
        }
    }
}

/// Inserting a fresh node into a tree gives a tree.
pub proof fn lemma_insert_keeps_tree<P: Point, T, R>(
    m: Map<R, Linked<P, T, R>>,
    root: Option<R>,
    new_node: R,
    axis: nat,
)
    requires
        is_tree(m, root),
        is_fresh(m, root, new_node),
    ensures
        is_tree(inserted(m, root, new_node, axis), Some(root_after(root, new_node))),
{
    lemma_insert_adds_node(m, root, new_node, axis);
    match root {
        None => {
            lemma_leaf(m, new_node);
        },
        Some(r) => {
            lemma_slot(m, r, m[new_node].point, axis);
            lemma_attach_unshared(m, insert_slot(m, r, m[new_node].point, axis), new_node, root);
        },
    }
}

/// A walk that came to its target before a fresh leaf was linked to a free
/// child link still comes to it afterwards.
pub proof fn lemma_walk_survives<P: Point, T, R>(
    m: Map<R, Linked<P, T, R>>,
    slot: (R, Side),
    child: R,
    root: Option<R>,
    key: P,
    axis: nat,
    target: R,
)
    requires
        acyclic(m, root),
        is_fresh(m, root, child),
        is_free(m, slot),
        descends_to(m, root, key, axis, target),
    ensures
        descends_to(attach(m, slot, child), root, key, axis, target),
    decreases height(m, root),
{
    let after = attach(m, slot, child);
    lemma_attach_acyclic(m, slot, child, root);
    if let Some(r) = root {
        lemma_step_down(m, r);
        lemma_walk_step(m, r, key, axis, target);
        lemma_walk_step(after, r, key, axis, target);
        if r != target {
            let next = if goes_left(key, m[r].point, axis) {
                m[r].left
            } else {
                m[r].right
            };
            lemma_walk_survives(m, slot, child, next, key, next_axis::<P>(axis), target);
            // The walk went on from `r`, so the link it took was set, and
            // the link that is set now was free: the walk takes the same.
            assert(next == if goes_left(key, after[r].point, axis) {
                after[r].left
            } else {
                after[r].right
            });
        }
    }
}

/// After a fresh node went into the tree, a walk with its region comes to it.
pub proof fn lemma_walk_finds_new<P: Point, T, R>(
    m: Map<R, Linked<P, T, R>>,
    r: R,
    new_node: R,
    axis: nat,
)
    requires
        acyclic(m, Some(r)),
        is_fresh(m, Some(r), new_node),
    ensures
        descends_to(
            inserted(m, Some(r), new_node, axis),
            Some(r),
            m[new_node].point,
            axis,
            new_node,
        ),
    decreases height(m, Some(r)),
{
    let key = m[new_node].point;
    let slot = insert_slot(m, r, key, axis);
    let after = attach(m, slot, new_node);
    let below = next_axis::<P>(axis);
    lemma_slot(m, r, key, axis);
    lemma_attach_acyclic(m, slot, new_node, Some(r));
    lemma_step_down(m, r);
    lemma_walk_step(after, r, key, axis, new_node);
    let next = if goes_left(key, m[r].point, axis) {
        m[r].left
    } else {
        m[r].right
    };
    match next {
        Some(c) => {
            // The descent goes on below `c`, and `r` keeps its links.
            lemma_root_not_below(m, r);
            lemma_slot(m, c, key, below);
            lemma_walk_finds_new(m, c, new_node, below);
            assert(after[r] == m[r]);
        },
        None => {
            // The descent ends at `r`: the new node is its child on that side.
            lemma_leaf(after, new_node);
            lemma_walk_step(after, new_node, key, below, new_node);
            assert(Some(new_node) == if goes_left(key, after[r].point, axis) {
                after[r].left
            } else {
                after[r].right
            });
        },
    }
}

/// Insertion keeps the tree in agreement with the comparison that built it:
/// where every node was where a walk with its own region arrives, the same
/// holds once a fresh node went in, the new node included.
pub proof fn lemma_insert_keeps_consistent<P: Point, T, R>(
    m: Map<R, Linked<P, T, R>>,
    root: Option<R>,
    new_node: R,
    axis: nat,
)
    requires
        acyclic(m, root),
        is_fresh(m, root, new_node),
        consistent(m, root, axis),
    ensures
        consistent(inserted(m, root, new_node, axis), Some(root_after(root, new_node)), axis),
{
    let after = inserted(m, root, new_node, axis);
    let top = Some(root_after(root, new_node));
    lemma_insert_adds_node(m, root, new_node, axis);
    match root {
        None => {
            // The tree is the new node alone, and a walk starts at it.
            assert forall|x: R| #[trigger] nodes_of(after, top).contains(x) implies descends_to(
                after,
                top,
                after[x].point,
                axis,
                x,
            ) by {
                lemma_walk_step(after, new_node, after[x].point, axis, x);
            }
        },
        Some(r) => {
            let slot = insert_slot(m, r, m[new_node].point, axis);
            lemma_slot(m, r, m[new_node].point, axis);
            assert forall|x: R| #[trigger] nodes_of(after, top).contains(x) implies descends_to(
                after,
                top,
                after[x].point,
                axis,
                x,
            ) by {
                assert(after[x].point == m[x].point);
                if x == new_node {
                    lemma_walk_finds_new(m, r, new_node, axis);
                } else {
                    lemma_walk_survives(m, slot, new_node, root, m[x].point, axis, x);
                }
            }
        },
    }
}

/// Everything that a search reports is a node under the root whose region
/// lies within the query or overlaps it.
pub proof fn lemma_search_sound<P: SpatialPoint, T, R>(
    m: Map<R, Linked<P, T, R>>,
    root: Option<R>,
    query: P,
    axis: nat,
)
    requires
        acyclic(m, root),
    ensures
        forall|x: R| #[trigger]
            search_seq(m, root, query, axis).contains(x) ==> nodes_of(m, root).contains(x) && hit(
                m[x].point,
                query,
            ),
    decreases height(m, root),
{
    if let Some(r) = root {
        let below = next_axis::<P>(axis);
        let here = if hit(m[r].point, query) {
            seq![r]
        } else {
            Seq::empty()
        };
        let low = if query_low(query, axis) <= m[r].point.coord(axis) {
            search_seq(m, m[r].left, query, below)
        } else {
            Seq::empty()
        };
        let high = if query_high(query, axis) >= m[r].point.coord(axis) {
            search_seq(m, m[r].right, query, below)
        } else {
            Seq::empty()
        };
        lemma_step_down(m, r);
        lemma_nodes_step(m, r);
        lemma_search_step(m, r, query, axis);
        lemma_search_sound(m, m[r].left, query, below);
        lemma_search_sound(m, m[r].right, query, below);
        assert forall|x: R| #[trigger]
            search_seq(m, root, query, axis).contains(x) implies nodes_of(m, root).contains(x)
            && hit(m[x].point, query) by {
            lemma_seq_concat_contains_all_elements(here + low, high, x);
            lemma_seq_concat_contains_all_elements(here, low, x);
            if here.contains(x) {
                assert(here.len() == 1 && here[0] == r);
            }
        }
    }
}

/// A query that no region under the root lies within or overlaps finds
/// nothing.
pub proof fn lemma_search_finds_nothing<P: SpatialPoint, T, R>(
    m: Map<R, Linked<P, T, R>>,
    root: Option<R>,
    query: P,
    axis: nat,
)
    requires
        acyclic(m, root),
        forall|x: R| #[trigger] nodes_of(m, root).contains(x) ==> !hit(m[x].point, query),
    ensures
        search_seq(m, root, query, axis) == Seq::<R>::empty(),
{
    let found = search_seq(m, root, query, axis);
    lemma_search_sound(m, root, query, axis);
    if found.len() > 0 {
        assert(found.contains(found[0]));
    }
    assert(found =~= Seq::<R>::empty());
}

/// In a tree, a search reports no node twice.
pub proof fn lemma_search_distinct<P: SpatialPoint, T, R>(
    m: Map<R, Linked<P, T, R>>,
    root: Option<R>,
    query: P,
    axis: nat,
)
    requires
        is_tree(m, root),
    ensures
        search_seq(m, root, query, axis).no_duplicates(),
    decreases height(m, root),
{
    if let Some(r) = root {
        let below = next_axis::<P>(axis);
        let here = if hit(m[r].point, query) {
            seq![r]
        } else {
            Seq::empty()
        };
        let low = if query_low(query, axis) <= m[r].point.coord(axis) {
            search_seq(m, m[r].left, query, below)
        } else {
            Seq::empty()
        };
        let high = if query_high(query, axis) >= m[r].point.coord(axis) {
            search_seq(m, m[r].right, query, below)
        } else {
            Seq::empty()
        };
        lemma_step_down(m, r);
        lemma_root_not_below(m, r);
        lemma_search_step(m, r, query, axis);
        lemma_search_distinct(m, m[r].left, query, below);
        lemma_search_distinct(m, m[r].right, query, below);
        lemma_search_sound(m, m[r].left, query, below);
        lemma_search_sound(m, m[r].right, query, below);
        // What the two subtrees give comes from disjoint sets of nodes.
        assert forall|i: int, j: int| 0 <= i < low.len() && 0 <= j < high.len() implies low[i]
            != high[j] by {
            assert(low.contains(low[i]));
            assert(high.contains(high[j]));
        }
        lemma_no_dup_in_concat(low, high);
        // The root is under neither child.
        assert forall|i: int, j: int|
            0 <= i < here.len() && 0 <= j < (low + high).len() implies here[i] != (low
            + high)[j] by {
            lemma_seq_concat_contains_all_elements(low, high, (low + high)[j]);
            assert((low + high).contains((low + high)[j]));
        }
        lemma_no_dup_in_concat(here, low + high);
        assert(search_seq(m, root, query, axis) =~= here + (low + high));
    }
}

/// Where the low bound of the query is above the split value of the root of a
/// tree, the search reports no node of the left subtree.
pub proof fn lemma_pruned_left_is_omitted<P: SpatialPoint, T, R>(
    m: Map<R, Linked<P, T, R>>,
    r: R,
    query: P,
    axis: nat,
)
    requires
        is_tree(m, Some(r)),
        query_low(query, axis) > m[r].point.coord(axis),
    ensures
        forall|x: R| #[trigger]
            nodes_of(m, m[r].left).contains(x) ==> !search_seq(m, Some(r), query, axis).contains(x),
{
    let below = next_axis::<P>(axis);
    let here = if hit(m[r].point, query) {
        seq![r]
    } else {
        Seq::empty()
    };
    let high = if query_high(query, axis) >= m[r].point.coord(axis) {
        search_seq(m, m[r].right, query, below)
    } else {
        Seq::empty()
    };
    lemma_step_down(m, r);
    lemma_root_not_below(m, r);
    lemma_search_step(m, r, query, axis);
    lemma_search_sound(m, m[r].right, query, below);
    assert forall|x: R| #[trigger] nodes_of(m, m[r].left).contains(x) implies !search_seq(
        m,
        Some(r),
        query,
        axis,
    ).contains(x) by {
        // What is reported is the root or comes from the right subtree.
        lemma_seq_concat_contains_all_elements(here + Seq::<R>::empty(), high, x);
        lemma_seq_concat_contains_all_elements(here, Seq::<R>::empty(), x);
        if here.contains(x) {
            assert(here.len() == 1 && here[0] == r);
        }
    }
}

/// Where the high bound of the query is below the split value of the root of
/// a tree, the search reports no node of the right subtree.
pub proof fn lemma_pruned_right_is_omitted<P: SpatialPoint, T, R>(
    m: Map<R, Linked<P, T, R>>,
    r: R,
    query: P,
    axis: nat,
)
    requires
        is_tree(m, Some(r)),
        query_high(query, axis) < m[r].point.coord(axis),
    ensures
        forall|x: R| #[trigger]
            nodes_of(m, m[r].right).contains(x) ==> !search_seq(m, Some(r), query, axis).contains(
                x,
            ),
{
    let below = next_axis::<P>(axis);
    let here = if hit(m[r].point, query) {
        seq![r]
    } else {
        Seq::empty()
    };
    let low = if query_low(query, axis) <= m[r].point.coord(axis) {
        search_seq(m, m[r].left, query, below)
    } else {
        Seq::empty()
    };
    lemma_step_down(m, r);
    lemma_root_not_below(m, r);
    lemma_search_step(m, r, query, axis);
    lemma_search_sound(m, m[r].left, query, below);
    assert forall|x: R| #[trigger] nodes_of(m, m[r].right).contains(x) implies !search_seq(
        m,
        Some(r),
        query,
        axis,
    ).contains(x) by {
        // What is reported is the root or comes from the left subtree.
        lemma_seq_concat_contains_all_elements(here + low, Seq::<R>::empty(), x);
        lemma_seq_concat_contains_all_elements(here, low, x);
        if here.contains(x) {
            assert(here.len() == 1 && here[0] == r);
        }
    }
}

/// The search from `root` leaves out no subtree: at every node under `root`
/// that has a left child the low bound of the query is at most the split
/// value, and at every node that has a right child the high bound is at least
/// the split value. `axis` is the axis on which `root` splits.
pub open spec fn never_pruned<P: Point, T, R>(
    m: Map<R, Linked<P, T, R>>,
    root: Option<R>,
    query: P,
    axis: nat,
) -> bool
    decreases height(m, root),
    when acyclic(m, root)
    via never_pruned_decreases::<P, T, R>
{
    match root {
        None => true,
        Some(r) => {
            &&& m[r].left is Some ==> query_low(query, axis) <= m[r].point.coord(axis)
            &&& m[r].right is Some ==> query_high(query, axis) >= m[r].point.coord(axis)
            &&& never_pruned(m, m[r].left, query, next_axis::<P>(axis))
            &&& never_pruned(m, m[r].right, query, next_axis::<P>(axis))
        },
    }
}

#[via_fn]
proof fn never_pruned_decreases<P: Point, T, R>(
    m: Map<R, Linked<P, T, R>>,
    root: Option<R>,
    query: P,
    axis: nat,
) {
    if let Some(r) = root {
        lemma_step_down(m, r);
    }
}

/// Where every region under the root lies within the query or overlaps it,
/// and the search leaves out no subtree, the search reports the nodes under
/// the root, each before the nodes under it.
pub proof fn lemma_search_reports_all<P: SpatialPoint, T, R>(
    m: Map<R, Linked<P, T, R>>,
    root: Option<R>,
    query: P,
    axis: nat,
)
    requires
        acyclic(m, root),
        never_pruned(m, root, query, axis),
        forall|x: R| #[trigger] nodes_of(m, root).contains(x) ==> hit(m[x].point, query),
    ensures
        search_seq(m, root, query, axis) == preorder(m, root),
    decreases height(m, root),
{
    if let Some(r) = root {
        let below = next_axis::<P>(axis);
        lemma_step_down(m, r);
        lemma_nodes_step(m, r);
        lemma_search_step(m, r, query, axis);
        assert forall|x: R| #[trigger] nodes_of(m, m[r].left).contains(x) implies hit(
            m[x].point,
            query,
        ) by {
            assert(nodes_of(m, root).contains(x));
        }
        assert forall|x: R| #[trigger] nodes_of(m, m[r].right).contains(x) implies hit(
            m[x].point,
            query,
        ) by {
            assert(nodes_of(m, root).contains(x));
        }
        lemma_search_reports_all(m, m[r].left, query, below);
        lemma_search_reports_all(m, m[r].right, query, below);
    }
}

/// Where every region under the root of a tree lies within the query or
/// overlaps it, and the search leaves out no subtree, the search reports
/// every node under the root, and each of them once.
pub proof fn lemma_search_reports_each_once<P: SpatialPoint, T, R>(
    m: Map<R, Linked<P, T, R>>,
    root: Option<R>,
    query: P,
    axis: nat,
)
    requires
        is_tree(m, root),
        never_pruned(m, root, query, axis),
        forall|x: R| #[trigger] nodes_of(m, root).contains(x) ==> hit(m[x].point, query),
    ensures
        search_seq(m, root, query, axis).no_duplicates(),
        forall|x: R|
            search_seq(m, root, query, axis).contains(x) <==> nodes_of(m, root).contains(x),
{
    lemma_search_reports_all(m, root, query, axis);
    lemma_preorder_distinct(m, root);
    lemma_preorder_lists_nodes(m, root);
}

/// On `axis`, `hull` ends where `start` ends, or where the region of some
/// node under `root` ends.
pub open spec fn hull_touches<T, R>(
    m: Map<R, Linked<BoundingBox, T, R>>,
    root: Option<R>,
    start: BoundingBox,
    hull: BoundingBox,
    axis: nat,
) -> bool {
    hull.coord(axis) == start.coord(axis) || exists|x: R| #[trigger]
        nodes_of(m, root).contains(x) && hull.coord(axis) == m[x].point.coord(axis)
}

/// The hull of a tree is the smallest box around the start box and the
/// regions under the root: it encloses all of them, and each of its four
/// sides is a side of one of them.
pub proof fn lemma_tree_hull_is_tight<T, R>(
    m: Map<R, Linked<BoundingBox, T, R>>,
    root: Option<R>,
    start: BoundingBox,
)
    requires
        acyclic(m, root),
    ensures
        start.within(&tree_hull(m, root, start)),
        forall|x: R| #[trigger]
            nodes_of(m, root).contains(x) ==> m[x].point.within(&tree_hull(m, root, start)),
        forall|axis: nat|
            axis < 4 ==> #[trigger] hull_touches(m, root, start, tree_hull(m, root, start), axis),
    decreases height(m, root),
{
    if let Some(r) = root {
        let with_node = start.hull(m[r].point);
        let with_left = tree_hull(m, m[r].left, with_node);
        let hull = tree_hull(m, m[r].right, with_left);
        lemma_step_down(m, r);
        lemma_nodes_step(m, r);
        lemma_tree_hull_is_tight(m, m[r].left, with_node);
        lemma_tree_hull_is_tight(m, m[r].right, with_left);
        assert(hull == tree_hull(m, root, start));
        // Each step encloses the step before it.
        assert forall|x: R| #[trigger] nodes_of(m, root).contains(x) implies m[x].point.within(
            &hull,
        ) by {
            if x != r && nodes_of(m, m[r].left).contains(x) {
                assert(m[x].point.within(&with_left));
            }
        }
        // A side of the hull comes from the last step that moved it.
        assert forall|axis: nat| axis < 4 implies #[trigger] hull_touches(
            m,
            root,
            start,
            hull,
            axis,
        ) by {
            assert(hull_touches(m, m[r].right, with_left, hull, axis));
            assert(hull_touches(m, m[r].left, with_node, with_left, axis));
            if hull.coord(axis) != with_left.coord(axis) {
                let x = choose|x: R| #[trigger]
                    nodes_of(m, m[r].right).contains(x) && hull.coord(axis) == m[x].point.coord(
                        axis,
                    );
                assert(nodes_of(m, root).contains(x));
            } else if with_left.coord(axis) != with_node.coord(axis) {
                let x = choose|x: R| #[trigger]
                    nodes_of(m, m[r].left).contains(x) && with_left.coord(axis)
                        == m[x].point.coord(axis);
                assert(nodes_of(m, root).contains(x));
            } else if with_node.coord(axis) != start.coord(axis) {
                assert(nodes_of(m, root).contains(r));
            }
        }
    }
}

} // verus!
