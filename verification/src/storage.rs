//! Node storage and the linker interface through which the tree algorithms
//! read and connect nodes.

use vstd::prelude::*;
use crate::spatial::Point;

verus! {

/// Tree node: one region, one payload, and up to two children, each named by
/// its index in the arena that owns the node.
pub struct Node<P: Point, T> {
    pub point: P,
    pub data: T,
    pub left: Option<usize>,
    pub right: Option<usize>,
}

impl<P: Point, T> Node<P, T> {
    /// Get a reference to the spatial point data.
    pub fn get_point(&self) -> (point: &P)
        ensures
            *point == self.point,
    {
        &self.point
    }

    /// Get a reference to the associated data.
    pub fn get_data(&self) -> (data: &T)
        ensures
            *data == self.data,
    {
        &self.data
    }
}

/// What a linker shows of one node: its region, its payload and its two
/// child references.
pub ghost struct Linked<P, T, R> {
    pub point: P,
    pub data: T,
    pub left: Option<R>,
    pub right: Option<R>,
}

/// Storage-agnostic access to linked nodes.
///
/// A linker is a map from node references to nodes. The two linking methods
/// change one child reference of one node and nothing else; the other methods
/// read. Every method asks that the node it reads or changes is a node of the
/// linker; what a child reference points to is not looked at.
pub trait NodeLinker<P: Point, T> {
    /// Reference to a node (pointer, offset, index, etc.)
    type NodeRef: Copy + Clone;

    /// The nodes of this linker, by reference. A linker that does not say
    /// what its nodes are has none, and no method of it can then be called
    /// from verified code.
    open spec fn nodes(&self) -> Map<Self::NodeRef, Linked<P, T, Self::NodeRef>> {
        Map::empty()
    }

    /// Link a child as the left child of a parent node.
    fn link_left(&mut self, parent: Self::NodeRef, child: Self::NodeRef)
        requires
            old(self).nodes().contains_key(parent),
        ensures
            final(self).nodes() == old(self).nodes().insert(
                parent,
                (Linked { left: Some(child), ..old(self).nodes()[parent] }),
            ),
    ;

    /// Link a child as the right child of a parent node.
    fn link_right(&mut self, parent: Self::NodeRef, child: Self::NodeRef)
        requires
            old(self).nodes().contains_key(parent),
        ensures
            final(self).nodes() == old(self).nodes().insert(
                parent,
                (Linked { right: Some(child), ..old(self).nodes()[parent] }),
            ),
    ;

    /// Get the left child of a node, if it exists.
    fn get_left(&self, node: Self::NodeRef) -> (child: Option<Self::NodeRef>)
        requires
            self.nodes().contains_key(node),
        ensures
            child == self.nodes()[node].left,
    ;

    /// Get the right child of a node, if it exists.
    fn get_right(&self, node: Self::NodeRef) -> (child: Option<Self::NodeRef>)
        requires
            self.nodes().contains_key(node),
        ensures
            child == self.nodes()[node].right,
    ;

    /// Get a reference to the spatial point data of a node.
    fn get_point(&self, node: Self::NodeRef) -> (point: &P)
        requires
            self.nodes().contains_key(node),
        ensures
            *point == self.nodes()[node].point,
    ;

    /// Get a reference to the associated data of a node.
    fn get_data(&self, node: Self::NodeRef) -> (data: &T)
        requires
            self.nodes().contains_key(node),
        ensures
            *data == self.nodes()[node].data,
    ;
}

/// Append-only store of nodes. A node is known by its index, which it keeps
/// for as long as the arena lives. The view is the sequence of nodes.
pub struct NodeArena<P: Point, T> {
    nodes: Vec<Node<P, T>>,
}

impl<P: Point, T> View for NodeArena<P, T> {
    type V = Seq<Node<P, T>>;

    closed spec fn view(&self) -> Seq<Node<P, T>> {
        self.nodes@
    }
}

impl<P: Point, T> NodeArena<P, T> {
    /// Create a new empty arena.
    pub fn new() -> (arena: Self)
        ensures
            arena@ == Seq::<Node<P, T>>::empty(),
    {
        NodeArena { nodes: Vec::new() }
    }

    /// Create a new arena with pre-allocated capacity.
    ///
    /// The capacity only reserves room: the arena is empty whatever it is, and
    /// nothing that the arena offers tells two capacities apart.
    pub fn with_capacity(capacity: usize) -> (arena: Self)
        ensures
            arena@ == Seq::<Node<P, T>>::empty(),
    {
        NodeArena { nodes: Vec::with_capacity(capacity) }
    }

    /// Allocate a new node and return its index.
    pub fn allocate(&mut self, point: P, data: T) -> (index: usize)
        ensures
            index == old(self)@.len(),
            final(self)@ == old(self)@.push((Node { point, data, left: None, right: None })),
    {
        let index = self.nodes.len();
        self.nodes.push(Node { point, data, left: None, right: None });
        index
    }

    /// Get a reference to a node by index.
    pub fn get(&self, index: usize) -> (node: &Node<P, T>)
        requires
            index < self@.len(),
        ensures
            *node == self@[index as int],
    {
        &self.nodes[index]
    }

    /// Get a mutable reference to a node by index.
    pub fn get_mut(&mut self, index: usize) -> (node: &mut Node<P, T>)
        requires
            index < old(self)@.len(),
        ensures
            *node == old(self)@[index as int],
            final(self)@ == old(self)@.update(index as int, *final(node)),
    {
        &mut self.nodes[index]
    }

    /// Get the number of allocated nodes.
    pub fn len(&self) -> (count: usize)
        ensures
            count == self@.len(),
    {
        self.nodes.len()
    }

    /// Check if the arena is empty.
    pub fn is_empty(&self) -> (empty: bool)
        ensures
            empty == (self@.len() == 0),
    {
        self.nodes.is_empty()
    }
}

impl<P: Point, T> Default for NodeArena<P, T> {
    fn default() -> (arena: Self)
        ensures
            arena@ == Seq::<Node<P, T>>::empty(),
    {
        Self::new()
    }
}

/// The nodes of an arena as a linker shows them: the references are the
/// indices below the arena's length.
pub open spec fn links_of<P: Point, T>(arena: Seq<Node<P, T>>) -> Map<usize, Linked<P, T, usize>> {
    Map::new(
        |index: usize| (index as int) < arena.len(),
        |index: usize|
            Linked {
                point: arena[index as int].point,
                data: arena[index as int].data,
                left: arena[index as int].left,
                right: arena[index as int].right,
            },
    )
}

/// Linker over a borrowed arena: node references are arena indices. The view
/// is the sequence of nodes in the arena as it stands.
pub struct InMemoryLinker<'a, P: Point, T> {
    arena: &'a mut NodeArena<P, T>,
}

impl<'a, P: Point, T> View for InMemoryLinker<'a, P, T> {
    type V = Seq<Node<P, T>>;

    closed spec fn view(&self) -> Seq<Node<P, T>> {
        self.arena@
    }
}

impl<'a, P: Point, T> InMemoryLinker<'a, P, T> {
    /// Create a new linker that operates on the given arena.
    pub fn new(arena: &'a mut NodeArena<P, T>) -> (linker: Self)
        ensures
            linker@ == old(arena)@,
    {
        InMemoryLinker { arena }
    }
}

impl<'a, P: Point, T> NodeLinker<P, T> for InMemoryLinker<'a, P, T> {
    type NodeRef = usize;

    open spec fn nodes(&self) -> Map<usize, Linked<P, T, usize>> {
        links_of(self@)
    }

    fn link_left(&mut self, parent: usize, child: usize)
        ensures
            final(self)@ == old(self)@.update(
                parent as int,
                (Node { left: Some(child), ..old(self)@[parent as int] }),
            ),
    {
        self.arena.get_mut(parent).left = Some(child);
    }

    fn link_right(&mut self, parent: usize, child: usize)
        ensures
            final(self)@ == old(self)@.update(
                parent as int,
                (Node { right: Some(child), ..old(self)@[parent as int] }),
            ),
    {
        self.arena.get_mut(parent).right = Some(child);
    }

    fn get_left(&self, node: usize) -> (child: Option<usize>) {
        self.arena.get(node).left
    }

    fn get_right(&self, node: usize) -> (child: Option<usize>) {
        self.arena.get(node).right
    }

    fn get_point(&self, node: usize) -> (point: &P) {
        self.arena.get(node).get_point()
    }

    fn get_data(&self, node: usize) -> (data: &T) {
        self.arena.get(node).get_data()
    }
}

} // verus!
