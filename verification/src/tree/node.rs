//! Entries of a tree's node arena.

use vstd::prelude::*;

verus! {

/// What is known of a split's quality. A splitter that scores nothing
/// records `Unknown`; a node whose incoming impurity is `Zero` is not split
/// any further.
#[derive(Clone, Copy, Debug, PartialEq, Eq, Structural)]
pub enum Impurity {
    Unknown,
    Zero,
    Positive,
}

/// A node of a tree, stored in an arena and named by its position there.
///
/// `children` holds arena positions; `n_children` is the branch count of the
/// node's split rule.
#[derive(Debug)]
pub enum Node<S> {
    External { id: usize, class: isize, depth: usize, n_samples: usize },
    Internal {
        id: usize,
        split_params: S,
        children: Vec<usize>,
        n_children: usize,
        depth: usize,
        impurity: Impurity,
        n_samples: usize,
    },
}

impl<S> Node<S> {
    /// The node is a leaf.
    pub open spec fn is_leaf(self) -> bool {
        self is External
    }

    /// The node's position in its arena.
    pub open spec fn id_of(self) -> usize {
        match self {
            Node::External { id, .. } => id,
            Node::Internal { id, .. } => id,
        }
    }

    /// The class of a leaf; 0 for an internal node, which has none.
    pub open spec fn class_of(self) -> isize {
        match self {
            Node::External { class, .. } => class,
            Node::Internal { .. } => 0,
        }
    }

    /// The node's distance from the root.
    pub open spec fn depth_of(self) -> usize {
        match self {
            Node::External { depth, .. } => depth,
            Node::Internal { depth, .. } => depth,
        }
    }

    /// How many training samples reached the node.
    pub open spec fn samples_of(self) -> usize {
        match self {
            Node::External { n_samples, .. } => n_samples,
            Node::Internal { n_samples, .. } => n_samples,
        }
    }

    /// The arena positions of the node's children; none for a leaf.
    pub open spec fn children_of(self) -> Seq<usize> {
        match self {
            Node::External { .. } => Seq::empty(),
            Node::Internal { children, .. } => children@,
        }
    }

    /// The node's position in its arena.
    pub fn get_id(&self) -> (id: usize)
        ensures
            id == self.id_of(),
    {
        match self {
            Node::External { id, .. } => *id,
            Node::Internal { id, .. } => *id,
        }
    }

    /// The class of a leaf. Only a leaf has one.
    pub fn get_class(&self) -> (class: isize)
        requires
            self.is_leaf(),
        ensures
            class == self.class_of(),
    {
        match self {
            Node::External { class, .. } => *class,
            Node::Internal { .. } => vstd::pervasive::unreached(),
        }
    }

    /// How many training samples reached the node.
    pub fn get_n_samples(&self) -> (n_samples: usize)
        ensures
            n_samples == self.samples_of(),
    {
        match self {
            Node::External { n_samples, .. } => *n_samples,
            Node::Internal { n_samples, .. } => *n_samples,
        }
    }

    /// The node's distance from the root.
    pub fn get_depth(&self) -> (depth: usize)
        ensures
            depth == self.depth_of(),
    {
        match self {
            Node::External { depth, .. } => *depth,
            Node::Internal { depth, .. } => *depth,
        }
    }
}

} // verus!
