//! Entries and tree nodes, and the steps that a search or a traversal takes
//! from one node: down to the first or last node of a subtree, up to the
//! next node in key order.

use vstd::prelude::*;
use crate::arena::Arena;
use crate::arena::grown;
use crate::arena::next_slot;
use crate::arena::taken;
use crate::keys::Probe;
use crate::keys::SearchKey;
use crate::shape::Shape;
use crate::shape::down_ok;
use crate::shape::live;
use crate::shape::node_ok;
use crate::shape::shape_ok;
use crate::shape::subtree_ok;
use crate::shape::within;

verus! {

/// One entry of the tree: a key and what is stored under it.
pub struct Content<Key, Payload> {
    pub key: Key,
    pub payload: Payload,
}

/// A tree node: its entry and the slots of its parent and children.
pub struct Node<Key, Payload> {
    pub content: Content<Key, Payload>,
    pub parent: Option<usize>,
    pub left_child: Option<usize>,
    pub right_child: Option<usize>,
}

/// Where a search goes from one node.
pub enum TraverseTowards {
    /// Go on at this child.
    Next(usize),
    /// The key is absent; it would become the left child.
    InsertLeft,
    /// The key is absent; it would become the right child.
    InsertRight,
    /// This node holds the key.
    Current,
}

/// Where a search for `search` goes from `node`.
pub open spec fn step_towards<K: SearchKey, P, Q: Probe<K> + ?Sized>(
    node: Node<K, P>,
    search: &Q,
) -> TraverseTowards {
    if search.after(&node.content.key) {
        match node.right_child {
            Some(r) => TraverseTowards::Next(r),
            None => TraverseTowards::InsertRight,
        }
    } else if search.before(&node.content.key) {
        match node.left_child {
            Some(l) => TraverseTowards::Next(l),
            None => TraverseTowards::InsertLeft,
        }
    } else {
        TraverseTowards::Current
    }
}

impl<Key: SearchKey, Payload> Node<Key, Payload> {
    /// One step of a search: right when the node's key comes before `search`,
    /// left when `search` comes before it, and here otherwise.
    pub fn traverse_towards<Query: Probe<Key> + ?Sized>(&self, search: &Query) -> (towards:
        TraverseTowards)
        ensures
            towards == step_towards(*self, search),
    {
        if search.comes_after(&self.content.key) {
            if let Some(right) = self.right_child {
                return TraverseTowards::Next(right);
            }
            return TraverseTowards::InsertRight;
        } else if search.comes_before(&self.content.key) {
            if let Some(left) = self.left_child {
                return TraverseTowards::Next(left);
            }
            return TraverseTowards::InsertLeft;
        }
        TraverseTowards::Current
    }

    /// Follows left links from `current_node_index` to the first node of its
    /// subtree.
    pub fn fall_min(
        storage: &Arena<Node<Key, Payload>>,
        current_node_index: usize,
        Ghost(g): Ghost<Shape>,
    ) -> (lowest: usize)
        requires
            subtree_ok(storage.slots(), g, current_node_index as int),
        ensures
            live(storage.slots(), lowest as int),
            within(g, current_node_index as int, lowest as int),
            (g.rank)(lowest as int) == (g.lo)(current_node_index as int),
            (storage.slots()[lowest as int]->0).left_child.is_none(),
    {
        let mut at = current_node_index;
        let ghost top = at as int;
        loop
            invariant
                top == current_node_index as int,
                subtree_ok(storage.slots(), g, top),
                live(storage.slots(), at as int),
                within(g, top, at as int),
                (g.lo)(at as int) == (g.lo)(top),
            decreases (g.hi)(at as int) - (g.lo)(at as int),
        {
            assert(down_ok(storage.slots(), g, at as int));
            let current_node = storage.view(at);
            if let Some(left) = current_node.left_child {
                at = left;
            } else {
                return at;
            }
        }
    }

    /// Follows right links from `current_node_index` to the last node of its
    /// subtree.
    pub fn fall_max(
        storage: &Arena<Node<Key, Payload>>,
        current_node_index: usize,
        Ghost(g): Ghost<Shape>,
    ) -> (highest: usize)
        requires
            subtree_ok(storage.slots(), g, current_node_index as int),
        ensures
            live(storage.slots(), highest as int),
            within(g, current_node_index as int, highest as int),
            (g.rank)(highest as int) == (g.hi)(current_node_index as int) - 1,
            (storage.slots()[highest as int]->0).right_child.is_none(),
    {
        let mut at = current_node_index;
        let ghost top = at as int;
        loop
            invariant
                top == current_node_index as int,
                subtree_ok(storage.slots(), g, top),
                live(storage.slots(), at as int),
                within(g, top, at as int),
                (g.hi)(at as int) == (g.hi)(top),
            decreases (g.hi)(at as int) - (g.lo)(at as int),
        {
            assert(down_ok(storage.slots(), g, at as int));
            let current_node = storage.view(at);
            if let Some(right) = current_node.right_child {
                at = right;
            } else {
                return at;
            }
        }
    }

    /// Goes up from `from_node_index` past every parent that it is in the
    /// right subtree of, to the node that follows its subtree in the order.
    pub fn climb(
        storage: &Arena<Node<Key, Payload>>,
        from_node_index: usize,
        Ghost(root): Ghost<Option<usize>>,
        Ghost(g): Ghost<Shape>,
    ) -> (above: Option<usize>)
        requires
            shape_ok(storage.slots(), root, g),
            live(storage.slots(), from_node_index as int),
        ensures
            match above {
                Some(t) => live(storage.slots(), t as int) && (g.rank)(t as int) == (g.hi)(
                    from_node_index as int,
                ),
                None => (g.hi)(from_node_index as int) == g.order.len(),
            },
    {
        let mut at = from_node_index;
        let ghost start = at as int;
        loop
            invariant
                start == from_node_index as int,
                shape_ok(storage.slots(), root, g),
                live(storage.slots(), at as int),
                (g.hi)(at as int) == (g.hi)(start),
            decreases (g.lo)(at as int),
        {
            assert(node_ok(storage.slots(), root, g, at as int));
            let from_node = storage.view(at);
            let check_to_node_index = from_node.parent;
            if let Some(to_node_index) = check_to_node_index {
                assert(node_ok(storage.slots(), root, g, to_node_index as int));
                let to_node = storage.view(to_node_index);
                if let Some(right_child_index) = to_node.right_child {
                    if right_child_index == at {
                        at = to_node_index;
                        continue ;
                    }
                }
                return Some(to_node_index);
            }
            return None;
        }
    }

    /// Puts a fresh leaf with the given entry and parent into the arena.
    pub fn new(
        storage: &mut Arena<Node<Key, Payload>>,
        key: Key,
        payload: Payload,
        parent: Option<usize>,
    ) -> (index: usize)
        requires
            old(storage).wf(),
        ensures
            final(storage).wf(),
            !old(storage).occupied(index as int),
            final(storage).slots() == grown(old(storage).slots(), index as int, leaf(key, payload, parent)),
            index as int == next_slot(old(storage).slots(), old(storage).vacant()),
            final(storage).vacant() == taken(old(storage).vacant()),
    {
        storage.allocate(
            Node {
                content: Content { key: key, payload: payload },
                parent: parent,
                left_child: None,
                right_child: None,
            },
        )
    }
}

/// A node without children.
pub open spec fn leaf<K, P>(key: K, payload: P, parent: Option<usize>) -> Node<K, P> {
    Node {
        content: Content { key: key, payload: payload },
        parent: parent,
        left_child: None,
        right_child: None,
    }
}

} // verus!
