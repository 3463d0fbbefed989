//! The shape of what a linker holds: which nodes hang under a root, how many
//! levels there are, and whether following child links ever comes back to
//! where it started.
//!
//! A root is an `Option`: `None` is the empty tree.

use vstd::prelude::*;
use vstd::seq_lib::{lemma_no_dup_in_concat, lemma_seq_concat_contains_all_elements};
use crate::storage::Linked;

verus! {

/// Following child links from `root` stays among the nodes of `m` and ends
/// after at most `levels` nodes on every path.
pub open spec fn bounded<P, T, R>(m: Map<R, Linked<P, T, R>>, root: Option<R>, levels: nat) -> bool
    decreases levels,
{
    match root {
        None => true,
        Some(r) => {
            &&& levels > 0
            &&& m.contains_key(r)
            &&& bounded(m, m[r].left, (levels - 1) as nat)
            &&& bounded(m, m[r].right, (levels - 1) as nat)
        },
    }
}

/// Some number of levels bounds the tree under the node `r`.
#[verifier::opaque]
pub open spec fn has_bound<P, T, R>(m: Map<R, Linked<P, T, R>>, r: R) -> bool {
    exists|levels: nat| bounded(m, Some(r), levels)
}

/// The least number of levels that bounds the tree under the node `r`.
#[verifier::opaque]
pub open spec fn least_bound<P, T, R>(m: Map<R, Linked<P, T, R>>, r: R) -> nat {
    choose|levels: nat|
        bounded(m, Some(r), levels) && forall|fewer: nat|
            fewer < levels ==> !bounded(m, Some(r), fewer)
}

/// Every path of child links from `root` ends, and every node on it is a node
/// of `m`. The empty tree is acyclic.
pub open spec fn acyclic<P, T, R>(m: Map<R, Linked<P, T, R>>, root: Option<R>) -> bool {
    match root {
        None => true,
        Some(r) => has_bound(m, r),
    }
}

/// Number of nodes on the longest path from `root` downwards; 0 for the empty
/// tree. Meaningful where `acyclic(m, root)`.
pub open spec fn height<P, T, R>(m: Map<R, Linked<P, T, R>>, root: Option<R>) -> nat {
    match root {
        None => 0,
        Some(r) => least_bound(m, r),
    }
}

/// Where some number of levels bounds a tree, a least number does.
proof fn lemma_least_bound<P, T, R>(m: Map<R, Linked<P, T, R>>, root: Option<R>, levels: nat)
    requires
        bounded(m, root, levels),
    ensures
        exists|least: nat|
            bounded(m, root, least) && forall|fewer: nat|
                fewer < least ==> !bounded(m, root, fewer),
    decreases levels,
{
    if exists|fewer: nat| fewer < levels && bounded(m, root, fewer) {
        let fewer = choose|fewer: nat| fewer < levels && bounded(m, root, fewer);
        lemma_least_bound(m, root, fewer);
    }
}

/// The height of an acyclic tree is its least bound.
pub proof fn lemma_height_is_least<P, T, R>(m: Map<R, Linked<P, T, R>>, root: Option<R>)
    requires
        acyclic(m, root),
    ensures
        bounded(m, root, height(m, root)),
        forall|fewer: nat| fewer < height(m, root) ==> !bounded(m, root, fewer),
{
    if let Some(r) = root {
        reveal(has_bound);
        reveal(least_bound);
        let levels = choose|levels: nat| bounded(m, root, levels);
        lemma_least_bound(m, root, levels);
    }
}

/// A tree with a bound on its levels is acyclic, and no higher than the bound.
pub proof fn lemma_bounded_is_acyclic<P, T, R>(
    m: Map<R, Linked<P, T, R>>,
    root: Option<R>,
    levels: nat,
)
    requires
        bounded(m, root, levels),
    ensures
        acyclic(m, root),
        height(m, root) <= levels,
{
    reveal(has_bound);
    lemma_height_is_least(m, root);
}

/// Under an acyclic root both subtrees are acyclic and lower than the root,
/// and the root is a node of `m`.
pub proof fn lemma_step_down<P, T, R>(m: Map<R, Linked<P, T, R>>, r: R)
    requires
        acyclic(m, Some(r)),
    ensures
        m.contains_key(r),
        acyclic(m, m[r].left),
        acyclic(m, m[r].right),
        height(m, m[r].left) < height(m, Some(r)),
        height(m, m[r].right) < height(m, Some(r)),
{
    lemma_height_is_least(m, Some(r));
    let top = height(m, Some(r));
    let below = (top - 1) as nat;
    lemma_bounded_is_acyclic(m, m[r].left, below);
    lemma_bounded_is_acyclic(m, m[r].right, below);
}

/// The nodes that hang under `root`, the root itself included.
pub open spec fn nodes_of<P, T, R>(m: Map<R, Linked<P, T, R>>, root: Option<R>) -> Set<R>
    decreases height(m, root),
    when acyclic(m, root)
    via nodes_of_decreases::<P, T, R>
{
    match root {
        None => Set::empty(),
        Some(r) => nodes_of(m, m[r].left).union(nodes_of(m, m[r].right)).insert(r),
    }
}

#[via_fn]
proof fn nodes_of_decreases<P, T, R>(m: Map<R, Linked<P, T, R>>, root: Option<R>) {
    if let Some(r) = root {
        lemma_step_down(m, r);
    }
}

/// The nodes under a root are the root and the nodes under its two children.
pub proof fn lemma_nodes_step<P, T, R>(m: Map<R, Linked<P, T, R>>, r: R)
    requires
        acyclic(m, Some(r)),
    ensures
        nodes_of(m, Some(r)) == nodes_of(m, m[r].left).union(nodes_of(m, m[r].right)).insert(r),
        nodes_of(m, Some(r)).contains(r),
{
    lemma_step_down(m, r);
}

/// A node under `root` is a node of `m`, is itself the root of an acyclic tree
/// that is no higher, and everything under it is under `root` too.
pub proof fn lemma_member<P, T, R>(m: Map<R, Linked<P, T, R>>, root: Option<R>, x: R)
    requires
        acyclic(m, root),
        nodes_of(m, root).contains(x),
    ensures
        m.contains_key(x),
        acyclic(m, Some(x)),
        height(m, Some(x)) <= height(m, root),
        nodes_of(m, Some(x)).subset_of(nodes_of(m, root)),
    decreases height(m, root),
{
    match root {
        None => {},
        Some(r) => {
            lemma_step_down(m, r);
            if x == r {
            } else if nodes_of(m, m[r].left).contains(x) {
                lemma_member(m, m[r].left, x);
            } else {
                lemma_member(m, m[r].right, x);
            }
        },
    }
}

/// A root is not among the nodes under its own children.
pub proof fn lemma_root_not_below<P, T, R>(m: Map<R, Linked<P, T, R>>, r: R)
    requires
        acyclic(m, Some(r)),
    ensures
        !nodes_of(m, m[r].left).contains(r),
        !nodes_of(m, m[r].right).contains(r),
{
    lemma_step_down(m, r);
    if nodes_of(m, m[r].left).contains(r) {
        lemma_member(m, m[r].left, r);
    }
    if nodes_of(m, m[r].right).contains(r) {
        lemma_member(m, m[r].right, r);
    }
}

/// No node is reached from `root` along two different paths.
pub open spec fn unshared<P, T, R>(m: Map<R, Linked<P, T, R>>, root: Option<R>) -> bool
    decreases height(m, root),
    when acyclic(m, root)
    via unshared_decreases::<P, T, R>
{
    match root {
        None => true,
        Some(r) => {
            &&& unshared(m, m[r].left)
            &&& unshared(m, m[r].right)
            &&& nodes_of(m, m[r].left).disjoint(nodes_of(m, m[r].right))
        },
    }
}

#[via_fn]
proof fn unshared_decreases<P, T, R>(m: Map<R, Linked<P, T, R>>, root: Option<R>) {
    if let Some(r) = root {
        lemma_step_down(m, r);
    }
}

/// The links under `root` form a tree: paths end, stay among the nodes of
/// `m`, and never meet again.
pub open spec fn is_tree<P, T, R>(m: Map<R, Linked<P, T, R>>, root: Option<R>) -> bool {
    acyclic(m, root) && unshared(m, root)
}

/// The nodes under `root`, each before the nodes under it, left before right.
pub open spec fn preorder<P, T, R>(m: Map<R, Linked<P, T, R>>, root: Option<R>) -> Seq<R>
    decreases height(m, root),
    when acyclic(m, root)
    via preorder_decreases::<P, T, R>
{
    match root {
        None => Seq::empty(),
        Some(r) => seq![r] + preorder(m, m[r].left) + preorder(m, m[r].right),
    }
}

#[via_fn]
proof fn preorder_decreases<P, T, R>(m: Map<R, Linked<P, T, R>>, root: Option<R>) {
    if let Some(r) = root {
        lemma_step_down(m, r);
    }
}

/// One of the two child links of a node.
pub ghost enum Side {
    Left,
    Right,
}

/// `m` with the child link `slot` set to `child`; nothing else changes.
pub open spec fn attach<P, T, R>(m: Map<R, Linked<P, T, R>>, slot: (R, Side), child: R) -> Map<
    R,
    Linked<P, T, R>,
> {
    match slot.1 {
        Side::Left => m.insert(slot.0, Linked { left: Some(child), ..m[slot.0] }),
        Side::Right => m.insert(slot.0, Linked { right: Some(child), ..m[slot.0] }),
    }
}

/// `x` is a node of `m` without children.
pub open spec fn is_leaf<P, T, R>(m: Map<R, Linked<P, T, R>>, x: R) -> bool {
    m.contains_key(x) && m[x].left is None && m[x].right is None
}

/// `x` can go into the tree under `root`: it is a node without children, and
/// the tree does not hold it yet.
pub open spec fn is_fresh<P, T, R>(m: Map<R, Linked<P, T, R>>, root: Option<R>, x: R) -> bool {
    is_leaf(m, x) && !nodes_of(m, root).contains(x)
}

/// The child link `slot` belongs to a node of `m` and is not set.
pub open spec fn is_free<P, T, R>(m: Map<R, Linked<P, T, R>>, slot: (R, Side)) -> bool {
    &&& m.contains_key(slot.0)
    &&& match slot.1 {
        Side::Left => m[slot.0].left is None,
        Side::Right => m[slot.0].right is None,
    }
}

/// The empty tree is a tree, and lists no node.
pub proof fn lemma_empty_tree<P, T, R>(m: Map<R, Linked<P, T, R>>)
    ensures
        is_tree(m, None::<R>),
        height(m, None::<R>) == 0,
        nodes_of(m, None::<R>) == Set::<R>::empty(),
        preorder(m, None::<R>) == Seq::<R>::empty(),
{
}

/// A leaf is a tree of one node.
pub proof fn lemma_leaf<P, T, R>(m: Map<R, Linked<P, T, R>>, x: R)
    requires
        is_leaf(m, x),
    ensures
        is_tree(m, Some(x)),
        height(m, Some(x)) == 1,
        nodes_of(m, Some(x)) == Set::<R>::empty().insert(x),
        preorder(m, Some(x)) == seq![x],
{
    lemma_empty_tree(m);
    assert(bounded(m, None::<R>, 0));
    lemma_bounded_is_acyclic(m, Some(x), 1);
    lemma_step_down(m, x);
    assert(nodes_of(m, Some(x)) =~= Set::<R>::empty().insert(x));
    assert(preorder(m, Some(x)) =~= seq![x]);
}

/// Linking a leaf that is not in the tree adds at most one level.
pub proof fn lemma_attach_bounded<P, T, R>(
    m: Map<R, Linked<P, T, R>>,
    slot: (R, Side),
    child: R,
    root: Option<R>,
    levels: nat,
)
    requires
        bounded(m, root, levels),
        is_leaf(m, child),
        !nodes_of(m, root).contains(child),
        m.contains_key(slot.0),
    ensures
        bounded(attach(m, slot, child), root, levels + 1),
    decreases levels,
{
    let after = attach(m, slot, child);
    if let Some(r) = root {
        lemma_bounded_is_acyclic(m, root, levels);
        lemma_nodes_step(m, r);
        lemma_attach_bounded(m, slot, child, m[r].left, (levels - 1) as nat);
        lemma_attach_bounded(m, slot, child, m[r].right, (levels - 1) as nat);
        if r == slot.0 {
            // The new child is a leaf of `after`: one level bounds it.
            assert(bounded(after, None::<R>, (levels - 1) as nat));
            assert(bounded(after, Some(child), levels));
        }
    }
}

/// Linking a leaf that is not in the tree keeps the tree acyclic and adds at
/// most one level.
pub proof fn lemma_attach_acyclic<P, T, R>(
    m: Map<R, Linked<P, T, R>>,
    slot: (R, Side),
    child: R,
    root: Option<R>,
)
    requires
        acyclic(m, root),
        is_leaf(m, child),
        !nodes_of(m, root).contains(child),
        m.contains_key(slot.0),
    ensures
        acyclic(attach(m, slot, child), root),
        height(attach(m, slot, child), root) <= height(m, root) + 1,
{
    let after = attach(m, slot, child);
    lemma_height_is_least(m, root);
    lemma_attach_bounded(m, slot, child, root, height(m, root));
    lemma_bounded_is_acyclic(after, root, height(m, root) + 1);
}

/// Linking a leaf that is not in the tree to a free child link adds the leaf
/// to the nodes under every root that has the link's node under it, and
/// changes the nodes under no other root.
pub proof fn lemma_attach_nodes<P, T, R>(
    m: Map<R, Linked<P, T, R>>,
    slot: (R, Side),
    child: R,
    root: Option<R>,
)
    requires
        acyclic(m, root),
        is_leaf(m, child),
        !nodes_of(m, root).contains(child),
        is_free(m, slot),
    ensures
        nodes_of(attach(m, slot, child), root) == (if nodes_of(m, root).contains(slot.0) {
            nodes_of(m, root).insert(child)
        } else {
            nodes_of(m, root)
        }),
    decreases height(m, root),
{
    let after = attach(m, slot, child);
    lemma_attach_acyclic(m, slot, child, root);
    match root {
        None => {},
        Some(r) => {
            lemma_step_down(m, r);
            lemma_attach_nodes(m, slot, child, m[r].left);
            lemma_attach_nodes(m, slot, child, m[r].right);
            lemma_nodes_step(after, r);
            if r == slot.0 {
                lemma_leaf(after, child);
            }
        },
    }
}

/// The nodes in `preorder` are those under the root.
pub proof fn lemma_preorder_lists_nodes<P, T, R>(m: Map<R, Linked<P, T, R>>, root: Option<R>)
    requires
        acyclic(m, root),
    ensures
        forall|x: R| preorder(m, root).contains(x) <==> nodes_of(m, root).contains(x),
    decreases height(m, root),
{
    match root {
        None => {},
        Some(r) => {
            let low = preorder(m, m[r].left);
            let high = preorder(m, m[r].right);
            lemma_step_down(m, r);
            lemma_preorder_lists_nodes(m, m[r].left);
            lemma_preorder_lists_nodes(m, m[r].right);
            assert forall|x: R| preorder(m, root).contains(x) <==> nodes_of(m, root).contains(
                x,
            ) by {
                lemma_seq_concat_contains_all_elements(seq![r] + low, high, x);
                lemma_seq_concat_contains_all_elements(seq![r], low, x);
                assert(seq![r][0] == r);
            }
        },
    }
}

/// In a tree, `preorder` lists no node twice.
pub proof fn lemma_preorder_distinct<P, T, R>(m: Map<R, Linked<P, T, R>>, root: Option<R>)
    requires
        is_tree(m, root),
    ensures
        preorder(m, root).no_duplicates(),
    decreases height(m, root),
{
    match root {
        None => {},
        Some(r) => {
            let low = preorder(m, m[r].left);
            let high = preorder(m, m[r].right);
            lemma_step_down(m, r);
            lemma_root_not_below(m, r);
            lemma_preorder_distinct(m, m[r].left);
            lemma_preorder_distinct(m, m[r].right);
            lemma_preorder_lists_nodes(m, m[r].left);
            lemma_preorder_lists_nodes(m, m[r].right);
            assert forall|i: int, j: int| 0 <= i < low.len() && 0 <= j < high.len() implies low[i]
                != high[j] by {
                assert(low.contains(low[i]));
                assert(high.contains(high[j]));
            }
            lemma_no_dup_in_concat(low, high);
            assert forall|j: int| 0 <= j < (low + high).len() implies r != (low + high)[j] by {
                lemma_seq_concat_contains_all_elements(low, high, (low + high)[j]);
                assert((low + high).contains((low + high)[j]));
            }
            assert(preorder(m, root) =~= seq![r] + (low + high));
        },
    }
}

} // verus!
