//! Tree construction and range search, written against the linker interface
//! alone.

use vstd::prelude::*;
use crate::laws::{
    lemma_insert_adds_node, lemma_insert_keeps_consistent, lemma_insert_keeps_tree,
    lemma_search_distinct, lemma_search_sound,
};
use crate::shape::{
    acyclic, attach, height, is_free, is_fresh, is_tree, lemma_member, lemma_step_down, nodes_of,
    Side,
};
use crate::spatial::{BoundingBox, Point, SpatialPoint};
use crate::storage::{Linked, NodeLinker};

verus! {

/// The axis after `axis`, cycling through the axes of `P`.
pub open spec fn next_axis<P: Point>(axis: nat) -> nat {
    (axis + 1) % P::dims()
}

/// Whether a region with `key` descends to the left of a node with region
/// `at` that splits on `axis`: strictly smaller goes left, ties go right.
pub open spec fn goes_left<P: Point>(key: P, at: P, axis: nat) -> bool {
    key.coord(axis) < at.coord(axis)
}

/// The free child link that a descent from `r` with `key` ends at: the node
/// that has no child on the side that `key` goes to, and that side. `axis` is
/// the axis on which `r` splits.
pub open spec fn insert_slot<P: Point, T, R>(
    m: Map<R, Linked<P, T, R>>,
    r: R,
    key: P,
    axis: nat,
) -> (R, Side)
    decreases height(m, Some(r)),
    when acyclic(m, Some(r))
    via insert_slot_decreases::<P, T, R>
{
    if goes_left(key, m[r].point, axis) {
        match m[r].left {
            Some(l) => insert_slot(m, l, key, next_axis::<P>(axis)),
            None => (r, Side::Left),
        }
    } else {
        match m[r].right {
            Some(x) => insert_slot(m, x, key, next_axis::<P>(axis)),
            None => (r, Side::Right),
        }
    }
}

#[via_fn]
proof fn insert_slot_decreases<P: Point, T, R>(
    m: Map<R, Linked<P, T, R>>,
    r: R,
    key: P,
    axis: nat,
) {
    lemma_step_down(m, r);
}

/// The links after `new_node` went into the tree under `root`, whose root
/// splits on `axis`. Into the empty tree nothing is linked.
pub open spec fn inserted<P: Point, T, R>(
    m: Map<R, Linked<P, T, R>>,
    root: Option<R>,
    new_node: R,
    axis: nat,
) -> Map<R, Linked<P, T, R>> {
    match root {
        None => m,
        Some(r) => attach(m, insert_slot(m, r, m[new_node].point, axis), new_node),
    }
}

/// The root of the tree after `new_node` went into the tree under `root`: the
/// old root, or `new_node` where the tree was empty.
pub open spec fn root_after<R>(root: Option<R>, new_node: R) -> R {
    match root {
        Some(r) => r,
        None => new_node,
    }
}

/// The link at which a descent ends is free, and its node is in the tree.
pub proof fn lemma_slot<P: Point, T, R>(m: Map<R, Linked<P, T, R>>, r: R, key: P, axis: nat)
    requires
        acyclic(m, Some(r)),
    ensures
        is_free(m, insert_slot(m, r, key, axis)),
        nodes_of(m, Some(r)).contains(insert_slot(m, r, key, axis).0),
    decreases height(m, Some(r)),
{
    lemma_step_down(m, r);
    if goes_left(key, m[r].point, axis) {
        if let Some(l) = m[r].left {
            lemma_slot(m, l, key, next_axis::<P>(axis));
        }
    } else {
        if let Some(x) = m[r].right {
            lemma_slot(m, x, key, next_axis::<P>(axis));
        }
    }
}

/// A walk from `root` comes to `target`: at each node it compares `key` with
/// the node's region on the node's axis, goes left where `key` is smaller and
/// right where it is not. `axis` is the axis on which `root` splits.
pub open spec fn descends_to<P: Point, T, R>(
    m: Map<R, Linked<P, T, R>>,
    root: Option<R>,
    key: P,
    axis: nat,
    target: R,
) -> bool
    decreases height(m, root),
    when acyclic(m, root)
    via descends_to_decreases::<P, T, R>
{
    match root {
        None => false,
        Some(r) => r == target || descends_to(
            m,
            if goes_left(key, m[r].point, axis) {
                m[r].left
            } else {
                m[r].right
            },
            key,
            next_axis::<P>(axis),
            target,
        ),
    }
}

#[via_fn]
proof fn descends_to_decreases<P: Point, T, R>(
    m: Map<R, Linked<P, T, R>>,
    root: Option<R>,
    key: P,
    axis: nat,
    target: R,
) {
    if let Some(r) = root {
        lemma_step_down(m, r);
    }
}

/// A walk comes to `target` where it starts there, or where it comes to it
/// from the child on the side that the comparison picks.
pub proof fn lemma_walk_step<P: Point, T, R>(
    m: Map<R, Linked<P, T, R>>,
    r: R,
    key: P,
    axis: nat,
    target: R,
)
    requires
        acyclic(m, Some(r)),
    ensures
        descends_to(m, Some(r), key, axis, target) == (r == target || descends_to(
            m,
            if goes_left(key, m[r].point, axis) {
                m[r].left
            } else {
                m[r].right
            },
            key,
            next_axis::<P>(axis),
            target,
        )),
{
    lemma_step_down(m, r);
}

/// The tree agrees with the comparison that built it: a walk with the region
/// of any node under `root` comes to that node.
pub open spec fn consistent<P: Point, T, R>(
    m: Map<R, Linked<P, T, R>>,
    root: Option<R>,
    axis: nat,
) -> bool {
    forall|x: R| #[trigger]
        nodes_of(m, root).contains(x) ==> descends_to(m, root, m[x].point, axis, x)
}

/// Insert `new_node` into the tree under `root` and return the tree's root.
///
/// The descent starts at `root`, which splits on axis `depth % P::dims()`, and
/// compares the new region with each node on the node's axis. It ends at the
/// first missing child, where `new_node` is linked. The empty tree links
/// nothing: `new_node` is the root.
///
/// One child link changes and nothing else: regions, payloads and the nodes
/// of the linker stay, and so do the links of every node outside the tree.
/// Where `new_node` is fresh, the result is acyclic again, from every node of
/// it on, and holds the nodes that were there and the new one; it is a tree
/// where it was a tree, and agrees with the comparison where it did before.
/// Nothing stops a caller from inserting a node that is in the tree already,
/// or one that has children: the link is set all the same, and what comes of
/// it may hold a cycle.
pub fn insert_node<P: Point, T, L: NodeLinker<P, T>>(
    linker: &mut L,
    root: Option<L::NodeRef>,
    new_node: L::NodeRef,
    depth: usize,
) -> (new_root: L::NodeRef)
    requires
        acyclic(old(linker).nodes(), root),
        root is Some ==> old(linker).nodes().contains_key(new_node),
    ensures
        new_root == root_after(root, new_node),
        final(linker).nodes() == inserted(
            old(linker).nodes(),
            root,
            new_node,
            (depth as nat) % P::dims(),
        ),
        root is None ==> new_root == new_node && final(linker).nodes() == old(linker).nodes(),
        final(linker).nodes().dom() == old(linker).nodes().dom(),
        forall|x: L::NodeRef| #[trigger]
            old(linker).nodes().contains_key(x) ==> {
                &&& final(linker).nodes()[x].point == old(linker).nodes()[x].point
                &&& final(linker).nodes()[x].data == old(linker).nodes()[x].data
            },
        forall|x: L::NodeRef|
            old(linker).nodes().contains_key(x) && !nodes_of(old(linker).nodes(), root).contains(x)
                ==> #[trigger] final(linker).nodes()[x] == old(linker).nodes()[x],
        is_fresh(old(linker).nodes(), root, new_node) ==> {
            &&& acyclic(final(linker).nodes(), Some(new_root))
            &&& nodes_of(final(linker).nodes(), Some(new_root)) == nodes_of(
                old(linker).nodes(),
                root,
            ).insert(new_node)
            &&& forall|x: L::NodeRef|
                nodes_of(final(linker).nodes(), Some(new_root)).contains(x) ==> #[trigger] acyclic(
                    final(linker).nodes(),
                    Some(x),
                )
            &&& is_tree(old(linker).nodes(), root) ==> is_tree(
                final(linker).nodes(),
                Some(new_root),
            )
            &&& consistent(old(linker).nodes(), root, (depth as nat) % P::dims()) ==> consistent(
                final(linker).nodes(),
                Some(new_root),
                (depth as nat) % P::dims(),
            )
        },
    decreases height(old(linker).nodes(), root),
{
    proof {
        let axis = (depth as nat) % P::dims();
        if is_fresh(linker.nodes(), root, new_node) {
            lemma_insert_adds_node(linker.nodes(), root, new_node, axis);
            let after = inserted(linker.nodes(), root, new_node, axis);
            let top = Some(root_after(root, new_node));
            assert forall|x: L::NodeRef| nodes_of(after, top).contains(x) implies #[trigger]
                acyclic(after, Some(x)) by {
                lemma_member(after, top, x);
            }
            if is_tree(linker.nodes(), root) {
                lemma_insert_keeps_tree(linker.nodes(), root, new_node, axis);
            }
            if consistent(linker.nodes(), root, axis) {
                lemma_insert_keeps_consistent(linker.nodes(), root, new_node, axis);
            }
        }
    }
    let Some(current_root) = root else {
        return new_node;
    };
    proof {
        lemma_step_down(linker.nodes(), current_root);
        lemma_slot(
            linker.nodes(),
            current_root,
            linker.nodes()[new_node].point,
            (depth as nat) % P::dims(),
        );
    }
    let current_point = linker.get_point(current_root);
    let new_point = linker.get_point(new_node);
    let dimension = depth % new_point.dimensions();

    let new_coord = new_point.get_dimension(dimension);
    let current_coord = current_point.get_dimension(dimension);

    if new_coord < current_coord {
        if let Some(left_child) = linker.get_left(current_root) {
            insert_node(linker, Some(left_child), new_node, dimension + 1);
        } else {
            linker.link_left(current_root, new_node);
        }
    } else {
        if let Some(right_child) = linker.get_right(current_root) {
            insert_node(linker, Some(right_child), new_node, dimension + 1);
        } else {
            linker.link_right(current_root, new_node);
        }
    }

    current_root
}

/// Whether a node with region `point` belongs to the answer to `query`.
pub open spec fn hit<P: SpatialPoint>(point: P, query: P) -> bool {
    point.within(&query) || point.intersects(&query)
}

/// The bound of `query` that decides whether the left subtree of a node that
/// splits on `axis` is searched.
pub open spec fn query_low<P: Point>(query: P, axis: nat) -> int {
    query.coord(axis)
}

/// The bound of `query` that decides whether the right subtree of a node that
/// splits on `axis` is searched: on the two low axes the paired high axis, on
/// the other axes the same bound as for the left subtree.
pub open spec fn query_high<P: Point>(query: P, axis: nat) -> int {
    if axis < 2 {
        query.coord(axis + 2)
    } else {
        query.coord(axis)
    }
}

/// The nodes that a search for `query` reports, in the order in which it
/// visits them: a node before its subtrees, the left subtree before the right.
/// The left subtree is searched where there is a left child and the low bound
/// of the query is at most the split value, the right subtree where there is
/// a right child and the high bound is at least the split value. `axis` is
/// the axis on which `root` splits.
pub open spec fn search_seq<P: SpatialPoint, T, R>(
    m: Map<R, Linked<P, T, R>>,
    root: Option<R>,
    query: P,
    axis: nat,
) -> Seq<R>
    decreases height(m, root),
    when acyclic(m, root)
    via search_seq_decreases::<P, T, R>
{
    match root {
        None => Seq::empty(),
        Some(r) => {
            let split = m[r].point.coord(axis);
            let here = if hit(m[r].point, query) {
                seq![r]
            } else {
                Seq::empty()
            };
            let low = if m[r].left is Some && query_low(query, axis) <= split {
                search_seq(m, m[r].left, query, next_axis::<P>(axis))
            } else {
                Seq::empty()
            };
            let high = if m[r].right is Some && query_high(query, axis) >= split {
                search_seq(m, m[r].right, query, next_axis::<P>(axis))
            } else {
                Seq::empty()
            };
            here + low + high
        },
    }
}

#[via_fn]
proof fn search_seq_decreases<P: SpatialPoint, T, R>(
    m: Map<R, Linked<P, T, R>>,
    root: Option<R>,
    query: P,
    axis: nat,
) {
    if let Some(r) = root {
        lemma_step_down(m, r);
    }
}

/// What a search reports from a node on: the node where it is a hit, then
/// what the left subtree gives, then what the right subtree gives.
pub proof fn lemma_search_step<P: SpatialPoint, T, R>(
    m: Map<R, Linked<P, T, R>>,
    r: R,
    query: P,
    axis: nat,
)
    requires
        acyclic(m, Some(r)),
    ensures
        search_seq(m, Some(r), query, axis) == (if hit(m[r].point, query) {
            seq![r]
        } else {
            Seq::empty()
        }) + (if query_low(query, axis) <= m[r].point.coord(axis) {
            search_seq(m, m[r].left, query, next_axis::<P>(axis))
        } else {
            Seq::empty()
        }) + (if query_high(query, axis) >= m[r].point.coord(axis) {
            search_seq(m, m[r].right, query, next_axis::<P>(axis))
        } else {
            Seq::empty()
        }),
{
    lemma_step_down(m, r);
}

/// A search of the empty tree reports nothing.
pub proof fn lemma_search_empty<P: SpatialPoint, T, R>(
    m: Map<R, Linked<P, T, R>>,
    query: P,
    axis: nat,
)
    ensures
        search_seq(m, None::<R>, query, axis) == Seq::<R>::empty(),
{
}

/// Search the tree under `root` for the nodes whose region lies within
/// `query` or overlaps it.
///
/// `root` splits on axis `depth % P::dims()`. A subtree is left out where the
/// split value of its parent rules it out: the left one where the low bound of
/// the query is above the split value, the right one where the high bound is
/// below it. What is left out is not looked at, so a node in it is not
/// reported even where its region is a hit.
///
/// The high bound is read two axes above a low axis, so the search of a tree
/// that is not empty asks for regions with at least four axes.
pub fn spatial_search<P: SpatialPoint, T, L: NodeLinker<P, T>>(
    linker: &L,
    root: Option<L::NodeRef>,
    query: &P,
    depth: usize,
) -> (results: Vec<L::NodeRef>)
    requires
        acyclic(linker.nodes(), root),
        root is Some ==> P::dims() >= 4,
    ensures
        results@ == search_seq(linker.nodes(), root, *query, (depth as nat) % P::dims()),
        root is None ==> results@.len() == 0,
        forall|i: int|
            0 <= i < results@.len() ==> {
                &&& nodes_of(linker.nodes(), root).contains(#[trigger] results@[i])
                &&& hit(linker.nodes()[results@[i]].point, *query)
            },
        is_tree(linker.nodes(), root) ==> results@.no_duplicates(),
{
    let mut results = Vec::new();
    proof {
        lemma_search_sound(linker.nodes(), root, *query, (depth as nat) % P::dims());
        if is_tree(linker.nodes(), root) {
            lemma_search_distinct(linker.nodes(), root, *query, (depth as nat) % P::dims());
        }
    }

    if let Some(current_node) = root {
        spatial_search_recursive(linker, current_node, query, depth, &mut results);
        assert(results@ =~= search_seq(
            linker.nodes(),
            root,
            *query,
            (depth as nat) % P::dims(),
        ));
    } else {
        proof {
            lemma_search_empty(linker.nodes(), *query, (depth as nat) % P::dims());
        }
    }
    assert forall|i: int| 0 <= i < results@.len() implies {
        &&& nodes_of(linker.nodes(), root).contains(#[trigger] results@[i])
        &&& hit(linker.nodes()[results@[i]].point, *query)
    } by {
        assert(results@.contains(results@[i]));
    }
    results
}

/// Search the tree under `node` and append what is found to `results`.
pub fn spatial_search_recursive<P: SpatialPoint, T, L: NodeLinker<P, T>>(
    linker: &L,
    node: L::NodeRef,
    query: &P,
    depth: usize,
    results: &mut Vec<L::NodeRef>,
)
    requires
        acyclic(linker.nodes(), Some(node)),
        P::dims() >= 4,
    ensures
        final(results)@ == old(results)@ + search_seq(
            linker.nodes(),
            Some(node),
            *query,
            (depth as nat) % P::dims(),
        ),
    decreases height(linker.nodes(), Some(node)),
{
    let ghost m = linker.nodes();
    let ghost axis = (depth as nat) % P::dims();
    let ghost before = results@;
    let ghost below = next_axis::<P>(axis);
    proof {
        lemma_step_down(m, node);
    }
    let node_point = linker.get_point(node);

    if node_point.is_within(query) || node_point.overlaps(query) {
        results.push(node);
    }
    let ghost here = if hit(m[node].point, *query) {
        seq![node]
    } else {
        Seq::empty()
    };
    assert(results@ =~= before + here);

    let dimension = depth % query.dimensions();
    let split_value = node_point.get_dimension(dimension);

    let query_min = query.get_dimension(dimension);
    let query_max = if dimension < 2 {
        query.get_dimension(dimension + 2)
    } else {
        query_min
    };

    let ghost low = if query_low(*query, axis) <= m[node].point.coord(axis) {
        search_seq(m, m[node].left, *query, below)
    } else {
        Seq::empty()
    };
    if let Some(left_child) = linker.get_left(node) {
        if query_min <= split_value {
            spatial_search_recursive(linker, left_child, query, dimension + 1, results);
        }
    }
    assert(results@ =~= before + here + low);

    let ghost high = if query_high(*query, axis) >= m[node].point.coord(axis) {
        search_seq(m, m[node].right, *query, below)
    } else {
        Seq::empty()
    };
    if let Some(right_child) = linker.get_right(node) {
        if query_max >= split_value {
            spatial_search_recursive(linker, right_child, query, dimension + 1, results);
        }
    }
    assert(results@ =~= before + (here + low + high));
}

/// `start` widened, node by node, to enclose the region of every node under
/// `root`.
pub open spec fn tree_hull<T, R>(
    m: Map<R, Linked<BoundingBox, T, R>>,
    root: Option<R>,
    start: BoundingBox,
) -> BoundingBox
    decreases height(m, root),
    when acyclic(m, root)
    via tree_hull_decreases::<T, R>
{
    match root {
        None => start,
        Some(r) => {
            let with_node = start.hull(m[r].point);
            let with_left = if m[r].left is Some {
                tree_hull(m, m[r].left, with_node)
            } else {
                with_node
            };
            if m[r].right is Some {
                tree_hull(m, m[r].right, with_left)
            } else {
                with_left
            }
        },
    }
}

#[via_fn]
proof fn tree_hull_decreases<T, R>(
    m: Map<R, Linked<BoundingBox, T, R>>,
    root: Option<R>,
    start: BoundingBox,
) {
    if let Some(r) = root {
        lemma_step_down(m, r);
    }
}

/// Widen `bounds` to enclose the region of every node under `node`.
pub fn expand_tree_bounds<T, L: NodeLinker<BoundingBox, T>>(
    linker: &L,
    node: L::NodeRef,
    bounds: &mut BoundingBox,
)
    requires
        acyclic(linker.nodes(), Some(node)),
    ensures
        *final(bounds) == tree_hull(linker.nodes(), Some(node), *old(bounds)),
    decreases height(linker.nodes(), Some(node)),
{
    let ghost m = linker.nodes();
    proof {
        lemma_step_down(m, node);
    }
    let node_point = linker.get_point(node);
    *bounds = bounds.union(node_point);
    let ghost with_node = *bounds;

    if let Some(left_child) = linker.get_left(node) {
        expand_tree_bounds(linker, left_child, bounds);
    }
    let ghost with_left = *bounds;
    assert(with_left == tree_hull(m, m[node].left, with_node));

    if let Some(right_child) = linker.get_right(node) {
        expand_tree_bounds(linker, right_child, bounds);
    }
    assert(*bounds == tree_hull(m, m[node].right, with_left));
}

} // verus!
