//! Lowest common ancestors in a node arena.
//!
//! Nodes are told apart by their position in the arena. One descent from
//! the root finds the target, and gives every node that it passes or leaves
//! aside the ancestor that the node shares with the target.

use crate::tree::node::Node;
use crate::tree::tree::arena_wf;
use crate::tree::tree::has_parent;
use crate::tree::tree::holds_child;
use crate::tree::tree::Arena;
use crate::tree::tree::StandardSplit;
use vstd::prelude::*;

verus! {

/// The node that lists `child` among its children.
pub open spec fn parent_of(nodes: Seq<Node<StandardSplit>>, child: int) -> int {
    choose|parent: int| #[trigger] holds_child(nodes, parent, child)
}

/// `above` lies on the way from the root to `below`, ends included.
pub open spec fn is_ancestor(nodes: Seq<Node<StandardSplit>>, above: int, below: int) -> bool
    decreases below,
{
    above == below || (0 < below < nodes.len() && 0 <= parent_of(nodes, below) < below
        && is_ancestor(nodes, above, parent_of(nodes, below)))
}

/// The deepest node that lies on the way from the root to `target` and on
/// the way from the root to `node`.
pub open spec fn lowest_common(nodes: Seq<Node<StandardSplit>>, target: int, node: int) -> int
    decreases node,
{
    if is_ancestor(nodes, node, target) {
        node
    } else if 0 < node < nodes.len() && 0 <= parent_of(nodes, node) < node {
        lowest_common(nodes, target, parent_of(nodes, node))
    } else {
        0
    }
}

/// In a tree every node but the root has one parent, which stands before it
/// and one level higher.
pub proof fn lemma_parent(nodes: Seq<Node<StandardSplit>>, child: int)
    requires
        arena_wf(nodes),
        1 <= child < nodes.len(),
    ensures
        holds_child(nodes, parent_of(nodes, child), child),
        0 <= parent_of(nodes, child) < child,
        nodes[parent_of(nodes, child)].depth_of() + 1 == nodes[child].depth_of(),
        forall|other: int| #[trigger]
            holds_child(nodes, other, child) ==> other == parent_of(nodes, child),
{
    assert(has_parent(nodes, child));
    let parent = parent_of(nodes, child);
    assert(holds_child(nodes, parent, child));
    let slot = choose|slot: int|
        0 <= slot < nodes[parent].children_of().len() && #[trigger] nodes[parent].children_of()[slot]
            == child;
    assert(nodes[parent].children_of()[slot] == child);
    assert forall|other: int| #[trigger] holds_child(nodes, other, child) implies other
        == parent by {
        let k = choose|k: int|
            0 <= k < nodes[other].children_of().len() && #[trigger] nodes[other].children_of()[k]
                == child;
        assert(nodes[other].children_of()[k] == nodes[parent].children_of()[slot]);
    }
}

/// The root lies on the way to every node.
pub proof fn lemma_root_is_ancestor(nodes: Seq<Node<StandardSplit>>, node: int)
    requires
        arena_wf(nodes),
        0 <= node < nodes.len(),
    ensures
        is_ancestor(nodes, 0, node),
    decreases node,
{
    if node > 0 {
        lemma_parent(nodes, node);
        lemma_root_is_ancestor(nodes, parent_of(nodes, node));
    }
}

/// A node on the way to another is a node of the arena and no deeper.
pub proof fn lemma_ancestor_is_higher(
    nodes: Seq<Node<StandardSplit>>,
    above: int,
    below: int,
)
    requires
        arena_wf(nodes),
        0 <= below < nodes.len(),
        is_ancestor(nodes, above, below),
    ensures
        0 <= above <= below,
        nodes[above].depth_of() <= nodes[below].depth_of(),
    decreases below,
{
    if above != below {
        lemma_parent(nodes, below);
        lemma_ancestor_is_higher(nodes, above, parent_of(nodes, below));
    }
}

/// What makes `lowest_common` the lowest common ancestor: it lies on the way
/// to both nodes, and every node that does so lies on the way to it.
pub proof fn lemma_lowest_common(
    nodes: Seq<Node<StandardSplit>>,
    target: int,
    node: int,
)
    requires
        arena_wf(nodes),
        0 <= target < nodes.len(),
        0 <= node < nodes.len(),
    ensures
        is_ancestor(nodes, lowest_common(nodes, target, node), target),
        is_ancestor(nodes, lowest_common(nodes, target, node), node),
        forall|other: int|
            is_ancestor(nodes, other, target) && #[trigger] is_ancestor(nodes, other, node)
                ==> is_ancestor(nodes, other, lowest_common(nodes, target, node)),
    decreases node,
{
    let shared = lowest_common(nodes, target, node);
    if !is_ancestor(nodes, node, target) {
        lemma_root_is_ancestor(nodes, target);
        lemma_parent(nodes, node);
        let parent = parent_of(nodes, node);
        lemma_lowest_common(nodes, target, parent);
        assert(shared == lowest_common(nodes, target, parent));
        assert forall|other: int|
            is_ancestor(nodes, other, target) && #[trigger] is_ancestor(
                nodes,
                other,
                node,
            ) implies is_ancestor(nodes, other, shared) by {
            assert(other != node);
            assert(is_ancestor(nodes, other, parent));
        }
    } else {
        assert(shared == node);
    }
}

/// A node is its own lowest common ancestor with itself.
pub proof fn lemma_lowest_common_self(nodes: Seq<Node<StandardSplit>>, node: int)
    ensures
        lowest_common(nodes, node, node) == node,
{
}

/// The lowest common ancestor of two nodes is no deeper than either.
pub proof fn lemma_lowest_common_depth(
    nodes: Seq<Node<StandardSplit>>,
    target: int,
    node: int,
)
    requires
        arena_wf(nodes),
        0 <= target < nodes.len(),
        0 <= node < nodes.len(),
    ensures
        0 <= lowest_common(nodes, target, node) < nodes.len(),
        nodes[lowest_common(nodes, target, node)].depth_of() <= nodes[target].depth_of(),
        nodes[lowest_common(nodes, target, node)].depth_of() <= nodes[node].depth_of(),
{
    lemma_lowest_common(nodes, target, node);
    lemma_ancestor_is_higher(nodes, lowest_common(nodes, target, node), target);
    lemma_ancestor_is_higher(nodes, lowest_common(nodes, target, node), node);
}

/// A child stands after its parent, and its parent is the node that lists
/// it.
pub proof fn lemma_child(nodes: Seq<Node<StandardSplit>>, parent: int, slot: int)
    requires
        arena_wf(nodes),
        0 <= parent < nodes.len(),
        0 <= slot < nodes[parent].children_of().len(),
    ensures
        parent < nodes[parent].children_of()[slot] < nodes.len(),
        parent_of(nodes, nodes[parent].children_of()[slot] as int) == parent,
        is_ancestor(nodes, parent, nodes[parent].children_of()[slot] as int),
        !is_ancestor(nodes, nodes[parent].children_of()[slot] as int, parent),
{
    let child = nodes[parent].children_of()[slot] as int;
    assert(holds_child(nodes, parent, child));
    lemma_parent(nodes, child);
    assert(is_ancestor(nodes, parent, parent));
    assert(is_ancestor(nodes, parent, child));
    if is_ancestor(nodes, child, parent) {
        lemma_ancestor_is_higher(nodes, child, parent);
    }
}

/// A node on the way to a node on the way to a third is on the way to the
/// third.
pub proof fn lemma_ancestor_transitive(
    nodes: Seq<Node<StandardSplit>>,
    above: int,
    between: int,
    below: int,
)
    requires
        arena_wf(nodes),
        0 <= below < nodes.len(),
        is_ancestor(nodes, above, between),
        is_ancestor(nodes, between, below),
    ensures
        is_ancestor(nodes, above, below),
    decreases below,
{
    if between != below {
        lemma_parent(nodes, below);
        lemma_ancestor_transitive(nodes, above, between, parent_of(nodes, below));
    }
}

/// Of two nodes on the way to a third, one is on the way to the other.
pub proof fn lemma_ancestor_chain(nodes: Seq<Node<StandardSplit>>, a: int, b: int, below: int)
    requires
        arena_wf(nodes),
        0 <= below < nodes.len(),
        is_ancestor(nodes, a, below),
        is_ancestor(nodes, b, below),
    ensures
        is_ancestor(nodes, a, b) || is_ancestor(nodes, b, a),
    decreases below,
{
    if a != below && b != below {
        lemma_parent(nodes, below);
        lemma_ancestor_chain(nodes, a, b, parent_of(nodes, below));
    }
}

/// What lies below one child of a node does not lie below another.
pub proof fn lemma_siblings_apart(
    nodes: Seq<Node<StandardSplit>>,
    parent: int,
    one: int,
    other: int,
    below: int,
)
    requires
        arena_wf(nodes),
        0 <= parent < nodes.len(),
        0 <= one < nodes[parent].children_of().len(),
        0 <= other < nodes[parent].children_of().len(),
        one != other,
        0 <= below < nodes.len(),
        is_ancestor(nodes, nodes[parent].children_of()[one] as int, below),
    ensures
        !is_ancestor(nodes, nodes[parent].children_of()[other] as int, below),
{
    let a = nodes[parent].children_of()[one] as int;
    let b = nodes[parent].children_of()[other] as int;
    lemma_child(nodes, parent, one);
    lemma_child(nodes, parent, other);
    if is_ancestor(nodes, b, below) {
        lemma_ancestor_chain(nodes, a, b, below);
        assert(a != b);
        if is_ancestor(nodes, a, b) {
            assert(is_ancestor(nodes, a, parent));
        } else {
            assert(is_ancestor(nodes, b, parent));
        }
    }
}

/// What lies below a node, and is not the node, lies below one of its
/// children.
pub proof fn lemma_below_child(nodes: Seq<Node<StandardSplit>>, above: int, below: int)
    requires
        arena_wf(nodes),
        0 <= above < nodes.len(),
        0 <= below < nodes.len(),
        is_ancestor(nodes, above, below),
        above != below,
    ensures
        exists|slot: int|
            0 <= slot < nodes[above].children_of().len() && is_ancestor(
                nodes,
                #[trigger] nodes[above].children_of()[slot] as int,
                below,
            ),
    decreases below,
{
    lemma_parent(nodes, below);
    let parent = parent_of(nodes, below);
    if parent == above {
        let slot = choose|slot: int|
            0 <= slot < nodes[above].children_of().len() && #[trigger] nodes[above].children_of()[slot]
                == below;
        assert(is_ancestor(nodes, nodes[above].children_of()[slot] as int, below));
    } else {
        lemma_below_child(nodes, above, parent);
        let slot = choose|slot: int|
            0 <= slot < nodes[above].children_of().len() && is_ancestor(
                nodes,
                #[trigger] nodes[above].children_of()[slot] as int,
                parent,
            );
        assert(is_ancestor(nodes, nodes[above].children_of()[slot] as int, below));
    }
}

/// Below a node that is not on the way to the target, every node shares
/// with the target what the node shares with it.
pub proof fn lemma_common_below(
    nodes: Seq<Node<StandardSplit>>,
    target: int,
    above: int,
    below: int,
)
    requires
        arena_wf(nodes),
        0 <= target < nodes.len(),
        0 <= below < nodes.len(),
        is_ancestor(nodes, above, below),
        !is_ancestor(nodes, above, target),
    ensures
        lowest_common(nodes, target, below) == lowest_common(nodes, target, above),
    decreases below,
{
    if above != below {
        if is_ancestor(nodes, below, target) {
            lemma_ancestor_transitive(nodes, above, below, target);
        }
        lemma_parent(nodes, below);
        lemma_common_below(nodes, target, above, parent_of(nodes, below));
    }
}

/// One step of the search for the lowest common ancestors with `target`,
/// at node `current`.
///
/// With an ancestor in hand, the one that `current` shares with the target,
/// every node from `current` down is given that ancestor. Without one, the
/// target is looked for from `current` down: if it is not there nothing
/// changes; if it is, the child that leads to it is searched in the same
/// way, the nodes under the other children are given `current`, and
/// `current` is given itself. Nodes that do not lie below `current` are left
/// as they are.
pub fn compute_ancestor_rec(
    nodes: &Arena,
    current: usize,
    target: usize,
    found_lca: Option<usize>,
    ancestors: &mut Vec<usize>,
) -> (found: bool)
    requires
        arena_wf(nodes@),
        current < nodes@.len(),
        target < nodes@.len(),
        nodes@[target as int].is_leaf(),
        old(ancestors)@.len() == nodes@.len(),
        found_lca matches Some(shared) ==> !is_ancestor(nodes@, current as int, target as int)
            && shared == lowest_common(nodes@, target as int, current as int),
    ensures
        final(ancestors)@.len() == nodes@.len(),
        found == (found_lca is None && is_ancestor(nodes@, current as int, target as int)),
        forall|v: int|
            0 <= v < nodes@.len() && !is_ancestor(nodes@, current as int, v)
                ==> #[trigger] final(ancestors)@[v] == old(ancestors)@[v],
        found || found_lca is Some ==> forall|v: int|
            0 <= v < nodes@.len() && is_ancestor(nodes@, current as int, v)
                ==> #[trigger] final(ancestors)@[v] == lowest_common(nodes@, target as int, v),
        !found && found_lca is None ==> final(ancestors)@ == old(ancestors)@,
    decreases nodes@.len() - current,
{
    if current == target {
        ancestors.set(current, current);
        proof {
            assert forall|v: int|
                0 <= v < nodes@.len() && is_ancestor(nodes@, current as int, v) implies v
                == current by {
                if v != current {
                    lemma_below_child(nodes@, current as int, v);
                }
            }
        }
        return true;
    }
    match &nodes[current] {
        Node::External { .. } => {
            proof {
                assert forall|v: int|
                    0 <= v < nodes@.len() && is_ancestor(nodes@, current as int, v) implies v
                    == current by {
                    if v != current {
                        lemma_below_child(nodes@, current as int, v);
                    }
                }
            }
            match found_lca {
                Some(shared) => {
                    ancestors.set(current, shared);
                },
                None => {},
            }
            false
        },
        Node::Internal { children, .. } => {
            assert(nodes@[current as int].children_of() == children@);
            let ghost before = ancestors@;
            match found_lca {
                Some(shared) => {
                    ancestors.set(current, shared);
                    let mut k: usize = 0;
                    while k < children.len()
                        invariant
                            k <= children@.len(),
                            arena_wf(nodes@),
                            current < nodes@.len(),
                            target < nodes@.len(),
                            nodes@[target as int].is_leaf(),
                            nodes@[current as int].children_of() == children@,
                            ancestors@.len() == nodes@.len(),
                            !is_ancestor(nodes@, current as int, target as int),
                            shared == lowest_common(nodes@, target as int, current as int),
                            ancestors@[current as int] == shared,
                            forall|v: int|
                                0 <= v < nodes@.len() && !is_ancestor(nodes@, current as int, v)
                                    ==> #[trigger] ancestors@[v] == before[v],
                            forall|j: int, v: int|
                                0 <= j < k && 0 <= v < nodes@.len() && is_ancestor(
                                    nodes@,
                                    children@[j] as int,
                                    v,
                                ) ==> #[trigger] ancestors@[v] == lowest_common(
                                    nodes@,
                                    target as int,
                                    v,
                                ) || !#[trigger] is_ancestor(nodes@, children@[j] as int, v),
                        decreases children@.len() - k,
                    {
                        let child: usize = children[k];
                        let ghost so_far = ancestors@;
                        proof {
                            lemma_child(nodes@, current as int, k as int);
                            if is_ancestor(nodes@, child as int, target as int) {
                                lemma_ancestor_transitive(
                                    nodes@,
                                    current as int,
                                    child as int,
                                    target as int,
                                );
                            }
                            lemma_common_below(nodes@, target as int, current as int, child as int);
                        }
                        compute_ancestor_rec(nodes, child, target, Some(shared), ancestors);
                        proof {
                            assert forall|v: int|
                                0 <= v < nodes@.len() && !is_ancestor(
                                    nodes@,
                                    current as int,
                                    v,
                                ) implies #[trigger] ancestors@[v] == before[v] by {
                                if is_ancestor(nodes@, child as int, v) {
                                    lemma_ancestor_transitive(
                                        nodes@,
                                        current as int,
                                        child as int,
                                        v,
                                    );
                                }
                                assert(so_far[v] == before[v]);
                            }
                            assert forall|j: int, v: int|
                                0 <= j < k + 1 && 0 <= v < nodes@.len() && is_ancestor(
                                    nodes@,
                                    children@[j] as int,
                                    v,
                                ) implies #[trigger] ancestors@[v] == lowest_common(
                                nodes@,
                                target as int,
                                v,
                            ) || !#[trigger] is_ancestor(nodes@, children@[j] as int, v) by {
                                if j < k {
                                    lemma_siblings_apart(nodes@, current as int, j, k as int, v);
                                    assert(ancestors@[v] == so_far[v]);
                                }
                            }
                        }
                        k += 1;
                    }
                    proof {
                        assert forall|v: int|
                            0 <= v < nodes@.len() && is_ancestor(
                                nodes@,
                                current as int,
                                v,
                            ) implies #[trigger] ancestors@[v] == lowest_common(
                            nodes@,
                            target as int,
                            v,
                        ) by {
                            if v != current {
                                lemma_below_child(nodes@, current as int, v);
                                let slot = choose|slot: int|
                                    0 <= slot < nodes@[current as int].children_of().len()
                                        && is_ancestor(
                                        nodes@,
                                        #[trigger] nodes@[current as int].children_of()[slot] as int,
                                        v,
                                    );
                                assert(is_ancestor(nodes@, children@[slot] as int, v));
                            }
                        }
                    }
                    false
                },
                None => {
                    let mut lca_child: Option<usize> = None;
                    let mut k: usize = 0;
                    while k < children.len() && lca_child.is_none()
                        invariant
                            k <= children@.len(),
                            arena_wf(nodes@),
                            current < nodes@.len(),
                            target < nodes@.len(),
                            nodes@[target as int].is_leaf(),
                            nodes@[current as int].children_of() == children@,
                            ancestors@.len() == nodes@.len(),
                            forall|j: int|
                                0 <= j < k && lca_child != Some(j as usize) ==> !is_ancestor(
                                    nodes@,
                                    #[trigger] children@[j] as int,
                                    target as int,
                                ),
                            lca_child is None ==> ancestors@ == before,
                            lca_child matches Some(at) ==> {
                                &&& at < children@.len()
                                &&& at + 1 == k
                                &&& is_ancestor(nodes@, children@[at as int] as int, target as int)
                                &&& forall|v: int|
                                    0 <= v < nodes@.len() && !is_ancestor(
                                        nodes@,
                                        children@[at as int] as int,
                                        v,
                                    ) ==> #[trigger] ancestors@[v] == before[v]
                                &&& forall|v: int|
                                    0 <= v < nodes@.len() && is_ancestor(
                                        nodes@,
                                        children@[at as int] as int,
                                        v,
                                    ) ==> #[trigger] ancestors@[v] == lowest_common(
                                        nodes@,
                                        target as int,
                                        v,
                                    )
                            },
                        decreases children@.len() - k,
                    {
                        let child: usize = children[k];
                        proof {
                            lemma_child(nodes@, current as int, k as int);
                        }
                        let found = compute_ancestor_rec(nodes, child, target, None, ancestors);
                        if found {
                            lca_child = Some(k);
                        }
                        k += 1;
                    }
                    match lca_child {
                        Some(at) => {
                            let ghost leading = children@[at as int] as int;
                            proof {
                                lemma_child(nodes@, current as int, at as int);
                                lemma_ancestor_transitive(
                                    nodes@,
                                    current as int,
                                    leading,
                                    target as int,
                                );
                            }
                            proof {
                                assert forall|v: int|
                                    0 <= v < nodes@.len() && !is_ancestor(
                                        nodes@,
                                        current as int,
                                        v,
                                    ) implies #[trigger] ancestors@[v] == before[v] by {
                                    if is_ancestor(nodes@, leading, v) {
                                        lemma_ancestor_transitive(
                                            nodes@,
                                            current as int,
                                            leading,
                                            v,
                                        );
                                    }
                                }
                            }
                            let mut j: usize = 0;
                            while j < children.len()
                                invariant
                                    j <= children@.len(),
                                    at < children@.len(),
                                    leading == children@[at as int],
                                    arena_wf(nodes@),
                                    current < nodes@.len(),
                                    target < nodes@.len(),
                                    nodes@[target as int].is_leaf(),
                                    nodes@[current as int].children_of() == children@,
                                    ancestors@.len() == nodes@.len(),
                                    is_ancestor(nodes@, leading, target as int),
                                    is_ancestor(nodes@, current as int, target as int),
                                    forall|v: int|
                                        0 <= v < nodes@.len() && !is_ancestor(
                                            nodes@,
                                            current as int,
                                            v,
                                        ) ==> #[trigger] ancestors@[v] == before[v],
                                    ancestors@[current as int] == before[current as int],
                                    forall|v: int|
                                        0 <= v < nodes@.len() && is_ancestor(nodes@, leading, v)
                                            ==> #[trigger] ancestors@[v] == lowest_common(
                                            nodes@,
                                            target as int,
                                            v,
                                        ),
                                    forall|i: int, v: int|
                                        0 <= i < j && 0 <= v < nodes@.len() && is_ancestor(
                                            nodes@,
                                            children@[i] as int,
                                            v,
                                        ) ==> #[trigger] ancestors@[v] == lowest_common(
                                            nodes@,
                                            target as int,
                                            v,
                                        ) || !#[trigger] is_ancestor(nodes@, children@[i] as int, v),
                                decreases children@.len() - j,
                            {
                                let ghost so_far = ancestors@;
                                if j != at {
                                    let child: usize = children[j];
                                    proof {
                                        lemma_child(nodes@, current as int, j as int);
                                        lemma_siblings_apart(
                                            nodes@,
                                            current as int,
                                            at as int,
                                            j as int,
                                            target as int,
                                        );
                                        assert(lowest_common(nodes@, target as int, child as int)
                                            == lowest_common(nodes@, target as int, current as int));
                                    }
                                    compute_ancestor_rec(
                                        nodes,
                                        child,
                                        target,
                                        Some(current),
                                        ancestors,
                                    );
                                    proof {
                                        assert forall|v: int|
                                            0 <= v < nodes@.len() && !is_ancestor(
                                                nodes@,
                                                current as int,
                                                v,
                                            ) implies #[trigger] ancestors@[v] == before[v] by {
                                            if is_ancestor(nodes@, child as int, v) {
                                                lemma_ancestor_transitive(
                                                    nodes@,
                                                    current as int,
                                                    child as int,
                                                    v,
                                                );
                                            }
                                            assert(so_far[v] == before[v]);
                                        }
                                        assert forall|v: int|
                                            0 <= v < nodes@.len() && is_ancestor(
                                                nodes@,
                                                leading,
                                                v,
                                            ) implies #[trigger] ancestors@[v] == lowest_common(
                                            nodes@,
                                            target as int,
                                            v,
                                        ) by {
                                            lemma_siblings_apart(
                                                nodes@,
                                                current as int,
                                                at as int,
                                                j as int,
                                                v,
                                            );
                                            assert(ancestors@[v] == so_far[v]);
                                        }
                                    }
                                }
                                proof {
                                    assert forall|i: int, v: int|
                                        0 <= i < j + 1 && 0 <= v < nodes@.len() && is_ancestor(
                                            nodes@,
                                            children@[i] as int,
                                            v,
                                        ) implies #[trigger] ancestors@[v] == lowest_common(
                                        nodes@,
                                        target as int,
                                        v,
                                    ) || !#[trigger] is_ancestor(nodes@, children@[i] as int, v) by {
                                        if i < j && j != at {
                                            lemma_siblings_apart(
                                                nodes@,
                                                current as int,
                                                i,
                                                j as int,
                                                v,
                                            );
                                            assert(ancestors@[v] == so_far[v]);
                                        }
                                    }
                                }
                                j += 1;
                            }
                            ancestors.set(current, current);
                            proof {
                                assert forall|v: int|
                                    0 <= v < nodes@.len() && is_ancestor(
                                        nodes@,
                                        current as int,
                                        v,
                                    ) implies #[trigger] ancestors@[v] == lowest_common(
                                    nodes@,
                                    target as int,
                                    v,
                                ) by {
                                    if v != current {
                                        lemma_below_child(nodes@, current as int, v);
                                        let slot = choose|slot: int|
                                            0 <= slot < nodes@[current as int].children_of().len()
                                                && is_ancestor(
                                                nodes@,
                                                #[trigger] nodes@[current as int].children_of()[slot] as int,
                                                v,
                                            );
                                        assert(is_ancestor(nodes@, children@[slot] as int, v));
                                        lemma_child(nodes@, current as int, slot);
                                    }
                                }
                            }
                            true
                        },
                        None => {
                            proof {
                                if is_ancestor(nodes@, current as int, target as int) {
                                    lemma_below_child(nodes@, current as int, target as int);
                                    let slot = choose|slot: int|
                                        0 <= slot < nodes@[current as int].children_of().len()
                                            && is_ancestor(
                                            nodes@,
                                            #[trigger] nodes@[current as int].children_of()[slot] as int,
                                            target as int,
                                        );
                                    assert(!is_ancestor(
                                        nodes@,
                                        children@[slot] as int,
                                        target as int,
                                    ));
                                }
                            }
                            false
                        },
                    }
                },
            }
        },
    }
}

/// For every node of the arena, the lowest common ancestor that it shares
/// with the leaf `target`.
pub fn compute_ancestor(nodes: &Arena, target: usize) -> (ancestors: Vec<usize>)
    requires
        arena_wf(nodes@),
        target < nodes@.len(),
        nodes@[target as int].is_leaf(),
    ensures
        ancestors@.len() == nodes@.len(),
        forall|v: int|
            0 <= v < nodes@.len() ==> #[trigger] ancestors@[v] == lowest_common(
                nodes@,
                target as int,
                v,
            ),
{
    let n: usize = nodes.len();
    let mut ancestors: Vec<usize> = Vec::new();
    let mut fill: usize = 0;
    while fill < n
        invariant
            fill <= n,
            ancestors@.len() == fill,
        decreases n - fill,
    {
        ancestors.push(0);
        fill += 1;
    }
    proof {
        lemma_root_is_ancestor(nodes@, target as int);
        assert forall|v: int| 0 <= v < nodes@.len() implies is_ancestor(nodes@, 0, v) by {
            lemma_root_is_ancestor(nodes@, v);
        }
    }
    compute_ancestor_rec(nodes, 0, target, None, &mut ancestors);
    ancestors
}

} // verus!
