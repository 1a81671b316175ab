//! The search tree over the slot arena: ordered insertion, removal by
//! splicing, and in-order traversal that climbs parent links.

use vstd::prelude::*;
use crate::arena::Arena;
use crate::grow::leaf_place;
use crate::grow::leaf_shape;
use crate::grow::lemma_first_leaf;
use crate::grow::lemma_link_leaf;
use crate::grow::linked;
use crate::grow::single;
use crate::keys::Probe;
use crate::keys::SearchKey;
use crate::keys::meets;
use crate::keys::same_key;
use crate::node::Content;
use crate::node::Node;
use crate::node::TraverseTowards;
use crate::shape::Shape;
use crate::shape::lemma_removed_is_absent;
use crate::splice::successor_place;
use crate::splice::lemma_unlink_root;
use crate::splice::lemma_unlink_places;
use crate::grow::lemma_link_places;
use crate::shape::lowered_link;
use crate::shape::raised_link;
use crate::shape::lowered;
use crate::shape::raised;
use crate::shape::right_place_of;
use crate::shape::left_place_of;
use crate::shape::ascending;
use crate::shape::ascends;
use crate::shape::down_ok;
use crate::shape::entries;
use crate::shape::flanked;
use crate::shape::holds_key;
use crate::shape::leads_to;
use crate::shape::lemma_descend;
use crate::shape::lemma_gap_absent;
use crate::shape::live;
use crate::shape::node_ok;
use crate::shape::shape_ok;
use crate::shape::subtree_ok;
use crate::shape::within;
use crate::splice::joint;
use crate::splice::lemma_hole;
use crate::splice::lemma_parent_untouched;
use crate::splice::lemma_reparent;
use crate::splice::lemma_unlink;
use crate::splice::replacement;
use crate::splice::spliced;
use crate::splice::unlinked;
use crate::splice::unlinked_root;
use crate::splice::unlinked_shape;

verus! {

/// An ordered container of entries, kept as an unbalanced search tree whose
/// nodes live in an arena. Its view is the sequence of entries in ascending
/// key order, which is the sequence that a traversal yields.
pub struct BinarySearchTree<Key: SearchKey, Payload> {
    storage: Arena<Node<Key, Payload>>,
    root: Option<usize>,
    shape: Ghost<Shape>,
}

/// A position in a tree's traversal: at one entry, or past the last one.
pub struct BSTIterator<'g, Key: SearchKey, Payload> {
    tree: &'g BinarySearchTree<Key, Payload>,
    node: Option<usize>,
}

/// What an insertion did: whether the key was new, and the position of the
/// entry that now has the key.
pub struct InsertionResult<'g, Key: SearchKey, Payload> {
    pub inserted: bool,
    pub iterator: BSTIterator<'g, Key, Payload>,
}

impl<Key: SearchKey, Payload> View for BinarySearchTree<Key, Payload> {
    type V = Seq<Content<Key, Payload>>;

    closed spec fn view(&self) -> Seq<Content<Key, Payload>> {
        entries(self.storage.slots(), self.shape@)
    }
}

impl<Key: SearchKey, Payload> BinarySearchTree<Key, Payload> {
    /// The arena is consistent and the nodes in it form one search tree.
    pub closed spec fn wf(&self) -> bool {
        &&& self.storage.wf()
        &&& shape_ok(self.storage.slots(), self.root, self.shape@)
        &&& self.storage.slots().len() == self.shape@.order.len() + self.storage.vacant().len()
    }

    /// The number of slots that the arena has, occupied or not.
    pub closed spec fn capacity(&self) -> nat {
        self.storage.slots().len()
    }

    /// The number of empty slots that wait for reuse.
    pub closed spec fn vacancies(&self) -> nat {
        self.storage.vacant().len()
    }

    /// The entries of a well-formed tree, in the order in which a traversal
    /// yields them, have strictly ascending keys.
    pub proof fn lemma_ascending(&self)
        requires
            self.wf(),
        ensures
            ascending(self@),
    {
        let slots = self.storage.slots();
        let g = self.shape@;
        assert forall|i: int, j: int| 0 <= i < j < self@.len() implies self@[i].key.precedes(
            &self@[j].key,
        ) by {
            assert(ascends(slots, g, i, j));
        }
    }

    /// Every slot of a well-formed tree holds an entry or waits for reuse, so
    /// the arena is never larger than the entries and the vacant slots
    /// together.
    pub proof fn lemma_slots_accounted(&self)
        requires
            self.wf(),
        ensures
            self.capacity() == self@.len() + self.vacancies(),
    {
    }

    /// An empty tree.
    pub fn new() -> (tree: BinarySearchTree<Key, Payload>)
        ensures
            tree.wf(),
            tree@ == Seq::<Content<Key, Payload>>::empty(),
            tree.capacity() == 0,
            tree.vacancies() == 0,
    {
        let tree = BinarySearchTree {
            storage: Arena::new(),
            root: None,
            shape: Ghost(Shape { order: Seq::empty(), rank: |s: int| 0int, lo: |s: int| 0int, hi: |s: int| 0int }),
        };
        assert(tree@ =~= Seq::<Content<Key, Payload>>::empty());
        tree
    }

    /// Adds the entry unless some entry already has the key. The result tells
    /// which, and points at the entry that has the key afterwards. A new
    /// entry fills the most recently vacated slot if there is one.
    pub fn insert<'g>(&'g mut self, key: Key, payload: Payload) -> (result: InsertionResult<
        'g,
        Key,
        Payload,
    >)
        requires
            old(self).wf(),
        ensures
            final(self).wf(),
            ascending(final(self)@),
            result.iterator.wf(),
            result.iterator.tree() == *final(self),
            result.inserted == !holds_key(old(self)@, &key),
            0 <= result.iterator.position() < final(self)@.len(),
            result.iterator.position() <= old(self)@.len(),
            result.inserted ==> final(self)@.len() == old(self)@.len() + 1,
            result.inserted ==> final(self)@ == old(self)@.insert(
                result.iterator.position(),
                Content { key: key, payload: payload },
            ),
            result.inserted ==> final(self)@[result.iterator.position()] == (Content {
                key: key,
                payload: payload,
            }),
            !result.inserted ==> *final(self) == *old(self) && same_key(
                &old(self)@[result.iterator.position()].key,
                &key,
            ),
            holds_key(final(self)@, &key),
            result.inserted ==> leaf_hung(*old(self), *final(self), result.iterator.position()),
            old(self)@.len() == 0 ==> final(self).root_place() == 0,
            old(self)@.len() > 0 && result.inserted ==> final(self).root_place() == old(
                self,
            ).root_place() + (if result.iterator.position() <= old(self).root_place() {
                1int
            } else {
                0int
            }),
            final(self).capacity() == grown_capacity(old(self).capacity(), final(self)@.len()),
            final(self).capacity() == (if result.inserted && old(self).vacancies() == 0 {
                old(self).capacity() + 1
            } else {
                old(self).capacity()
            }),
            final(self).vacancies() == (if result.inserted && old(self).vacancies() > 0 {
                old(self).vacancies() - 1
            } else {
                old(self).vacancies() as int
            }),
    {
        let ghost g = self.shape@;
        let ghost slots = self.storage.slots();
        proof {
            self.lemma_slots_accounted();
        }
        let ghost gkey = key;
        let ghost gpayload = payload;
        if let Some(root) = self.root {
            let mut node = root;
            loop
                invariant
                    *self == *old(self),
                    self.wf(),
                    g == self.shape@,
                    slots == self.storage.slots(),
                    gkey == key,
                    gpayload == payload,
                    live(slots, node as int),
                    flanked(slots, g, node as int, &key),
                decreases (g.hi)(node as int) - (g.lo)(node as int),
            {
                assert(node_ok(slots, self.root, g, node as int));
                let next = self.storage.view(node).traverse_towards(&key);
                match next {
                    TraverseTowards::Next(n) => {
                        proof {
                            lemma_descend(slots, self.root, g, node, n, &key);
                        }
                        node = n;
                    },
                    TraverseTowards::InsertLeft => {
                        let x = Node::new(&mut self.storage, key, payload, Some(node));
                        let new_left_child = Some(x);
                        self.storage.modify(node).left_child = new_left_child;
                        self.shape = Ghost(leaf_shape(g, node, x, true));
                        proof {
                            lemma_gap_absent(slots, self.root, g, node, &gkey, true);
                            lemma_link_leaf(slots, self.root, g, node, x, gkey, gpayload, true);
                            reveal(linked);
                            assert(self.storage.slots() =~= linked(slots, node, x, gkey, gpayload, true));
                            self.lemma_ascending();
                            self.lemma_slots_accounted();
                            Key::precedes_irreflexive(&gkey);
                            assert(meets(&gkey, &self@[leaf_place(g, node, true)].key));
                            let before = *old(self);
                            let after = *self;
                            let p = leaf_place(g, node, true);
                            let left = p < before@.len() && before.left_place(p).is_none();
                            lemma_link_places(slots, self.root, g, node, x, gkey, gpayload, true, p);
                            assert forall|j: int|
                                0 <= j <= before@.len() && j != p implies #[trigger] after.left_place(
                                j,
                            ) == (if left && j == p + 1 {
                                Some(p)
                            } else {
                                raised_link(before.left_place(lowered(j, p)), p)
                            }) by {
                                lemma_link_places(slots, self.root, g, node, x, gkey, gpayload, true, j);
                            }
                            assert forall|j: int|
                                0 <= j <= before@.len() && j != p implies #[trigger] after.right_place(
                                j,
                            ) == (if !left && j == p - 1 {
                                Some(p)
                            } else {
                                raised_link(before.right_place(lowered(j, p)), p)
                            }) by {
                                lemma_link_places(slots, self.root, g, node, x, gkey, gpayload, true, j);
                            }
                        }
                        return InsertionResult {
                            inserted: true,
                            iterator: BSTIterator { tree: &*self, node: new_left_child },
                        };
                    },
                    TraverseTowards::InsertRight => {
                        let x = Node::new(&mut self.storage, key, payload, Some(node));
                        let new_right_child = Some(x);
                        self.storage.modify(node).right_child = new_right_child;
                        self.shape = Ghost(leaf_shape(g, node, x, false));
                        proof {
                            lemma_gap_absent(slots, self.root, g, node, &gkey, false);
                            lemma_link_leaf(slots, self.root, g, node, x, gkey, gpayload, false);
                            reveal(linked);
                            assert(self.storage.slots() =~= linked(slots, node, x, gkey, gpayload, false));
                            self.lemma_ascending();
                            self.lemma_slots_accounted();
                            Key::precedes_irreflexive(&gkey);
                            assert(meets(&gkey, &self@[leaf_place(g, node, false)].key));
                            let before = *old(self);
                            let after = *self;
                            let p = leaf_place(g, node, false);
                            let left = p < before@.len() && before.left_place(p).is_none();
                            lemma_link_places(slots, self.root, g, node, x, gkey, gpayload, false, p);
                            assert forall|j: int|
                                0 <= j <= before@.len() && j != p implies #[trigger] after.left_place(
                                j,
                            ) == (if left && j == p + 1 {
                                Some(p)
                            } else {
                                raised_link(before.left_place(lowered(j, p)), p)
                            }) by {
                                lemma_link_places(slots, self.root, g, node, x, gkey, gpayload, false, j);
                            }
                            assert forall|j: int|
                                0 <= j <= before@.len() && j != p implies #[trigger] after.right_place(
                                j,
                            ) == (if !left && j == p - 1 {
                                Some(p)
                            } else {
                                raised_link(before.right_place(lowered(j, p)), p)
                            }) by {
                                lemma_link_places(slots, self.root, g, node, x, gkey, gpayload, false, j);
                            }
                        }
                        return InsertionResult {
                            inserted: true,
                            iterator: BSTIterator { tree: &*self, node: new_right_child },
                        };
                    },
                    TraverseTowards::Current => {
                        proof {
                            assert(meets(&key, &self@[(g.rank)(node as int)].key));
                            self.lemma_ascending();
                            self.lemma_slots_accounted();
                        }
                        return InsertionResult {
                            inserted: false,
                            iterator: BSTIterator { tree: &*self, node: Some(node) },
                        };
                    },
                }
            }
        } else {
            let x = Node::new(&mut self.storage, key, payload, None);
            self.root = Some(x);
            self.shape = Ghost(single(x as int));
            proof {
                lemma_first_leaf(slots, g, x, gkey, gpayload);
                self.lemma_ascending();
                self.lemma_slots_accounted();
                Key::precedes_irreflexive(&gkey);
                assert(meets(&gkey, &self@[0].key));
            }
            return InsertionResult {
                inserted: true,
                iterator: BSTIterator { tree: &*self, node: self.root },
            };
        }
    }

    /// The number of slots that the arena has, occupied or not.
    pub fn slot_count(&self) -> (count: usize)
        ensures
            count == self.capacity(),
    {
        self.storage.slot_count()
    }

    /// The place of the left child of the node at place `p`, or `None` where
    /// that node has none or `p` is no place of the tree.
    pub closed spec fn left_place(&self, p: int) -> Option<int> {
        left_place_of(self.storage.slots(), self.shape@, p)
    }

    /// The place of the right child of the node at place `p`, or `None`
    /// where that node has none or `p` is no place of the tree.
    pub closed spec fn right_place(&self, p: int) -> Option<int> {
        right_place_of(self.storage.slots(), self.shape@, p)
    }

    /// The place of the root's entry among the entries.
    pub closed spec fn root_place(&self) -> int {
        match self.root {
            Some(r) => (self.shape@.rank)(r as int),
            None => 0,
        }
    }

    /// The entry at the root of the tree, or `None` when the tree is empty.
    pub fn peek_root(&self) -> (entry: Option<&Content<Key, Payload>>)
        requires
            self.wf(),
        ensures
            match entry {
                Some(content) => 0 <= self.root_place() < self@.len() && *content
                    == self@[self.root_place()],
                None => self@.len() == 0,
            },
    {
        if let Some(root) = self.root {
            assert(node_ok(self.storage.slots(), self.root, self.shape@, root as int));
            Some(&self.storage.view(root).content)
        } else {
            None
        }
    }

    /// Every entry in ascending key order, gathered by walking the tree from
    /// its first position to the end.
    pub fn in_order<'g>(&'g self) -> (found: Vec<&'g Content<Key, Payload>>)
        requires
            self.wf(),
        ensures
            found@.len() == self@.len(),
            forall|k: int| 0 <= k < found@.len() ==> *(#[trigger] found@[k]) == self@[k],
            ascending(self@),
    {
        let mut found: Vec<&'g Content<Key, Payload>> = Vec::new();
        let mut at = self.iter();
        proof {
            self.lemma_ascending();
            self.lemma_slots_accounted();
        }
        loop
            invariant
                at.wf(),
                at.tree() == *self,
                found@.len() == at.position(),
                0 <= at.position() <= self@.len(),
                forall|k: int| 0 <= k < found@.len() ==> *(#[trigger] found@[k]) == self@[k],
                ascending(self@),
            decreases self@.len() - at.position(),
        {
            match at.next() {
                Some(content) => {
                    found.push(content);
                },
                None => {
                    return found;
                },
            }
        }
    }

    /// The position of the first entry, or the end of an empty tree.
    pub fn iter<'g>(&'g self) -> (start: BSTIterator<'g, Key, Payload>)
        requires
            self.wf(),
        ensures
            start.wf(),
            start.tree() == *self,
            start.position() == 0,
    {
        if let Some(root) = self.root {
            proof {
                self.lemma_subtree(root as int);
            }
            return BSTIterator {
                tree: self,
                node: Some(Node::fall_min(&self.storage, root, Ghost(self.shape@))),
            };
        } else {
            return BSTIterator { tree: self, node: None };
        }
    }

    /// In a well-formed tree the nodes under any live node are linked
    /// downwards as the layout says.
    proof fn lemma_subtree(&self, top: int)
        requires
            self.wf(),
            live(self.storage.slots(), top),
        ensures
            subtree_ok(self.storage.slots(), self.shape@, top),
    {
        assert forall|s: int|
            live(self.storage.slots(), s) && within(self.shape@, top, s) implies #[trigger] down_ok(
            self.storage.slots(),
            self.shape@,
            s,
        ) by {
            assert(node_ok(self.storage.slots(), self.root, self.shape@, s));
        }
    }

    /// The place of the node at slot `index` among the entries.
    pub closed spec fn place(&self, index: usize) -> int {
        (self.shape@.rank)(index as int)
    }

    /// Whether slot `index` holds a node of the tree.
    pub closed spec fn holds_node(&self, index: usize) -> bool {
        live(self.storage.slots(), index as int)
    }

    /// Removes the entry whose key `query` is neither before nor after, if
    /// there is one, and says whether it did. The slot becomes vacant and is
    /// the first to be filled again.
    pub fn remove<Query: Probe<Key> + ?Sized>(&mut self, query: &Query) -> (removed: bool)
        requires
            old(self).wf(),
        ensures
            final(self).wf(),
            ascending(final(self)@),
            removed == holds_key(old(self)@, query),
            removed ==> exists|p: int|
                0 <= p < old(self)@.len() && meets(query, &(#[trigger] old(self)@[p]).key)
                    && final(self)@ == old(self)@.remove(p) && entry_unhung(
                    *old(self),
                    *final(self),
                    p,
                ),
            !removed ==> *final(self) == *old(self),
            !holds_key(final(self)@, query),
            removed ==> final(self)@.len() == old(self)@.len() - 1,
            final(self).capacity() == old(self).capacity(),
            final(self).vacancies() == old(self).vacancies() + (if removed {
                1nat
            } else {
                0nat
            }),
    {
        let ghost g = self.shape@;
        let ghost slots = self.storage.slots();
        proof {
            self.lemma_ascending();
            self.lemma_slots_accounted();
        }
        if let Some(root) = self.root {
            let mut node = root;
            loop
                invariant
                    *self == *old(self),
                    self.wf(),
                    g == self.shape@,
                    slots == self.storage.slots(),
                    live(slots, node as int),
                    flanked(slots, g, node as int, query),
                decreases (g.hi)(node as int) - (g.lo)(node as int),
            {
                assert(node_ok(slots, self.root, g, node as int));
                let next = self.storage.view(node).traverse_towards(query);
                match next {
                    TraverseTowards::Next(n) => {
                        proof {
                            lemma_descend(slots, self.root, g, node, n, query);
                        }
                        node = n;
                    },
                    TraverseTowards::Current => {
                        let ghost p = self.place(node);
                        proof {
                            self.lemma_ascending();
                        }
                        self.remove_node(node);
                        proof {
                            assert(meets(query, &old(self)@[p].key));
                            lemma_removed_is_absent(old(self)@, query, p);
                            self.lemma_ascending();
                            self.lemma_slots_accounted();
                        }
                        return true;
                    },
                    TraverseTowards::InsertLeft => {
                        proof {
                            lemma_gap_absent(slots, self.root, g, node, query, true);
                            self.lemma_ascending();
                            self.lemma_slots_accounted();
                        }
                        return false;
                    },
                    TraverseTowards::InsertRight => {
                        proof {
                            lemma_gap_absent(slots, self.root, g, node, query, false);
                            self.lemma_ascending();
                            self.lemma_slots_accounted();
                        }
                        return false;
                    },
                }
            }
        }
        false
    }

    /// Takes the node at `node_index` out of the tree: frees its slot, joins
    /// its subtrees, and points its parent, or the root, at the result.
    fn remove_node(&mut self, node_index: usize)
        requires
            old(self).wf(),
            old(self).holds_node(node_index),
        ensures
            final(self).wf(),
            0 <= old(self).place(node_index) < old(self)@.len(),
            final(self)@ == old(self)@.remove(old(self).place(node_index)),
            final(self).storage.slots() == unlinked(
                old(self).storage.slots(),
                node_index,
                joint(
                    old(self).shape@,
                    (old(self).storage.slots()[node_index as int]->0).left_child,
                ),
            ),
            final(self).root == unlinked_root(old(self).storage.slots(), old(self).root, node_index),
            final(self).storage.vacant() == old(self).storage.vacant().push(node_index),
            !final(self).holds_node(node_index),
            entry_unhung(*old(self), *final(self), old(self).place(node_index)),
            final(self).capacity() == old(self).capacity(),
            final(self).vacancies() == old(self).vacancies() + 1,
    {
        let ghost g = self.shape@;
        let ghost slots = self.storage.slots();
        let ghost root = self.root;
        proof {
            assert(node_ok(slots, root, g, node_index as int));
            lemma_hole(slots, root, g, node_index);
        }
        let to_remove = self.storage.view(node_index);
        let check_parent = to_remove.parent;
        let check_left = to_remove.left_child;
        let check_right = to_remove.right_child;
        self.storage.remove(node_index);
        let ghost m = joint(g, check_left);
        if let Some(parent_index) = check_parent {
            let new_child = self.rebuild_tree(check_left, check_right, Some(parent_index));
            proof {
                lemma_parent_untouched(slots, root, g, node_index, m);
            }
            let parent_node = self.storage.modify(parent_index);
            let mut is_left = false;
            if let Some(old_left) = parent_node.left_child {
                if old_left == node_index {
                    is_left = true;
                }
            }
            if is_left {
                parent_node.left_child = new_child;
            } else {
                assert(leads_to(parent_node.right_child, node_index as int));
                parent_node.right_child = new_child;
            }
        } else {
            self.root = self.rebuild_tree(check_left, check_right, None);
        }
        self.shape = Ghost(unlinked_shape(slots, g, node_index));
        proof {
            reveal(unlinked);
            assert(self.storage.slots() =~= unlinked(slots, node_index, m));
            lemma_unlink(slots, root, g, node_index, m);
            lemma_unlink_root(slots, root, g, node_index, m);
            let before = *old(self);
            let after = *self;
            let p = (g.rank)(node_index as int);
            let l = before.left_place(p);
            let r = before.right_place(p);
            let to = successor_place(l, r, p);
            assert forall|j: int| 0 <= j < before@.len() - 1 implies #[trigger] after.left_place(j) == (
            if before.left_place(raised(j, p)) == Some(p) {
                to
            } else {
                lowered_link(before.left_place(raised(j, p)), p)
            }) by {
                lemma_unlink_places(slots, root, g, node_index, m, j);
            }
            assert forall|j: int| 0 <= j < before@.len() - 1 implies #[trigger] after.right_place(j)
                == (if before.right_place(raised(j, p)) == Some(p) {
                to
            } else if l.is_some() && r.is_some() && raised(j, p) == p - 1 {
                lowered_link(r, p)
            } else {
                lowered_link(before.right_place(raised(j, p)), p)
            }) by {
                lemma_unlink_places(slots, root, g, node_index, m, j);
            }
        }
    }

    /// Joins the two subtrees of a removed node under `new_parent` and
    /// returns the slot that takes the node's place. The left child takes
    /// it, and the right subtree hangs under the last node of the left
    /// subtree; a single child takes the place by itself.
    fn rebuild_tree(
        &mut self,
        check_left: Option<usize>,
        check_right: Option<usize>,
        new_parent: Option<usize>,
    ) -> (replaced: Option<usize>)
        requires
            old(self).storage.wf(),
            match check_left {
                Some(l) => subtree_ok(old(self).storage.slots(), old(self).shape@, l as int),
                None => true,
            },
            match check_right {
                Some(r) => live(old(self).storage.slots(), r as int),
                None => true,
            },
        ensures
            replaced == replacement(check_left, check_right),
            final(self).storage.wf(),
            final(self).storage.vacant() == old(self).storage.vacant(),
            final(self).root == old(self).root,
            final(self).shape == old(self).shape,
            final(self).storage.slots() == spliced(
                old(self).storage.slots(),
                check_left,
                check_right,
                new_parent,
                joint(old(self).shape@, check_left),
            ),
            check_left.is_some() && check_right.is_some() ==> {
                let m = joint(old(self).shape@, check_left);
                &&& live(old(self).storage.slots(), m as int)
                &&& (old(self).shape@.rank)(m as int) == (old(self).shape@.hi)(check_left->0 as int) - 1
                &&& (old(self).storage.slots()[m as int]->0).right_child.is_none()
            },
    {
        let ghost g = self.shape@;
        let ghost slots = self.storage.slots();
        if let Some(left) = check_left {
            proof {
                lemma_reparent(slots, g, left, new_parent);
            }
            self.storage.modify(left).parent = new_parent;
            if let Some(right) = check_right {
                let left_max_index = Node::fall_max(&self.storage, left, Ghost(g));
                assert(down_ok(self.storage.slots(), g, left_max_index as int));
                assert(left_max_index == joint(g, check_left));
                self.storage.modify(left_max_index).right_child = Some(right);
                self.storage.modify(right).parent = Some(left_max_index);
            }
            return Some(left);
        } else if let Some(right) = check_right {
            self.storage.modify(right).parent = new_parent;
            return Some(right);
        } else {
            return None;
        }
    }
}

impl<'g, Key: SearchKey, Payload> BSTIterator<'g, Key, Payload> {
    /// The tree that is traversed.
    pub closed spec fn tree(&self) -> BinarySearchTree<Key, Payload> {
        *self.tree
    }

    /// The number of entries before this position.
    pub closed spec fn position(&self) -> int {
        match self.node {
            Some(s) => (self.tree.shape@.rank)(s as int),
            None => self.tree.shape@.order.len() as int,
        }
    }

    /// The tree is well formed and the position is at one of its nodes or at
    /// the end.
    pub closed spec fn wf(&self) -> bool {
        &&& self.tree.wf()
        &&& match self.node {
            Some(s) => live(self.tree.storage.slots(), s as int),
            None => true,
        }
    }

    /// The entry at this position, or `None` at the end.
    pub fn view(&self) -> (entry: Option<&'g Content<Key, Payload>>)
        requires
            self.wf(),
        ensures
            0 <= self.position() <= self.tree()@.len(),
            match entry {
                Some(content) => self.position() < self.tree()@.len() && *content
                    == self.tree()@[self.position()],
                None => self.position() == self.tree()@.len(),
            },
    {
        if let Some(node_index) = self.node {
            assert(node_ok(
                self.tree.storage.slots(),
                self.tree.root,
                self.tree.shape@,
                node_index as int,
            ));
            return Some(&self.tree.storage.view(node_index).content);
        } else {
            return None;
        }
    }

    /// Yields the entry at this position and moves to the next one: the
    /// first node under the right child, or else the nearest parent that the
    /// position is in the left subtree of. At the end it yields `None` and
    /// stays.
    pub fn next(&mut self) -> (entry: Option<&'g Content<Key, Payload>>)
        requires
            old(self).wf(),
        ensures
            final(self).wf(),
            final(self).tree() == old(self).tree(),
            0 <= old(self).position() <= old(self).tree()@.len(),
            match entry {
                Some(content) => {
                    &&& old(self).position() < old(self).tree()@.len()
                    &&& *content == old(self).tree()@[old(self).position()]
                    &&& final(self).position() == old(self).position() + 1
                },
                None => {
                    &&& old(self).position() == old(self).tree()@.len()
                    &&& final(self).position() == old(self).position()
                },
            },
    {
        if let Some(current_node_index) = self.node {
            assert(node_ok(
                self.tree.storage.slots(),
                self.tree.root,
                self.tree.shape@,
                current_node_index as int,
            ));
            let current_node = self.tree.storage.view(current_node_index);
            let result = &current_node.content;
            if let Some(right) = current_node.right_child {
                proof {
                    self.tree.lemma_subtree(right as int);
                }
                self.node = Some(
                    Node::fall_min(&self.tree.storage, right, Ghost(self.tree.shape@)),
                );
            } else {
                self.node = Node::climb(
                    &self.tree.storage,
                    current_node_index,
                    Ghost(self.tree.root),
                    Ghost(self.tree.shape@),
                );
            }
            return Some(result);
        }
        return None;
    }
}

/// How the links of `after` stand when a new entry took place `p` of
/// `before`: the new node is a leaf; it hangs to the left of the entry that
/// follows it if that entry had no left child, and else to the right of the
/// entry before it, which had no right child; every other link leads to the
/// node that it led to before.
pub open spec fn leaf_hung<K: SearchKey, P>(
    before: BinarySearchTree<K, P>,
    after: BinarySearchTree<K, P>,
    p: int,
) -> bool {
    let left = p < before@.len() && before.left_place(p).is_none();
    &&& after.left_place(p).is_none()
    &&& after.right_place(p).is_none()
    &&& before@.len() > 0 && !left ==> p > 0 && before.right_place(p - 1).is_none()
    &&& forall|j: int|
        0 <= j <= before@.len() && j != p ==> #[trigger] after.left_place(j) == (if left && j == p
            + 1 {
            Some(p)
        } else {
            raised_link(before.left_place(lowered(j, p)), p)
        })
    &&& forall|j: int|
        0 <= j <= before@.len() && j != p ==> #[trigger] after.right_place(j) == (if !left && j
            == p - 1 {
            Some(p)
        } else {
            raised_link(before.right_place(lowered(j, p)), p)
        })
}

/// How the links of `after` stand when the entry at place `p` of `before`
/// left: its left child, else its right child, took its place under its
/// parent or as the root; where it had both children, the right child hangs
/// to the right of the entry before place `p`, the last one under the left
/// child; every other link leads to the node that it led to before.
pub open spec fn entry_unhung<K: SearchKey, P>(
    before: BinarySearchTree<K, P>,
    after: BinarySearchTree<K, P>,
    p: int,
) -> bool {
    let l = before.left_place(p);
    let r = before.right_place(p);
    let to = successor_place(l, r, p);
    &&& after.root_place() == (if before.root_place() == p {
        match to {
            Some(c) => c,
            None => 0,
        }
    } else {
        lowered(before.root_place(), p)
    })
    &&& forall|j: int|
        0 <= j < before@.len() - 1 ==> #[trigger] after.left_place(j) == (if before.left_place(
            raised(j, p),
        ) == Some(p) {
            to
        } else {
            lowered_link(before.left_place(raised(j, p)), p)
        })
    &&& forall|j: int|
        0 <= j < before@.len() - 1 ==> #[trigger] after.right_place(j) == (if before.right_place(
            raised(j, p),
        ) == Some(p) {
            to
        } else if l.is_some() && r.is_some() && raised(j, p) == p - 1 {
            lowered_link(r, p)
        } else {
            lowered_link(before.right_place(raised(j, p)), p)
        })
}

/// The number of slots that an arena of `capacity` slots has once the tree
/// holds `len` entries: it grows only where the entries outnumber the slots.
pub open spec fn grown_capacity(capacity: nat, len: nat) -> nat {
    if len > capacity {
        len
    } else {
        capacity
    }
}

/// The number of slots after `n` new entries went, one by one, into a tree
/// of `len` entries in an arena of `capacity` slots.
pub open spec fn capacity_after_inserts(capacity: nat, len: nat, n: nat) -> nat
    decreases n,
{
    if n == 0 {
        capacity
    } else {
        capacity_after_inserts(grown_capacity(capacity, len + 1), len + 1, (n - 1) as nat)
    }
}

/// New entries that find room in the arena leave its number of slots as it
/// is.
pub proof fn lemma_inserts_fit(capacity: nat, len: nat, n: nat)
    requires
        len + n <= capacity,
    ensures
        capacity_after_inserts(capacity, len, n) == capacity,
    decreases n,
{
    if n > 0 {
        lemma_inserts_fit(capacity, len + 1, (n - 1) as nat);
    }
}

/// Removals keep the number of slots. So when `n` entries have left a tree
/// that had `len` entries and `n` new entries go in, the arena has as many
/// slots as it had: the freed slots are filled before any slot is appended.
pub proof fn lemma_refill_keeps_capacity(capacity: nat, len: nat, n: nat)
    requires
        n <= len <= capacity,
    ensures
        capacity_after_inserts(capacity, (len - n) as nat, n) == capacity,
{
    lemma_inserts_fit(capacity, (len - n) as nat, n);
}

} // verus!
