//! Taking a node out of a search tree: its subtrees are joined and put in
//! its place, and what is left is a search tree.

use vstd::prelude::*;
use crate::keys::SearchKey;
use crate::node::Node;
use crate::shape::Shape;
use crate::shape::place_of_link;
use crate::shape::raised;
use crate::shape::lowered_link;
use crate::shape::right_place_of;
use crate::shape::left_place_of;
use crate::shape::ascends;
use crate::shape::down_ok;
use crate::shape::entries;
use crate::shape::leads_to;
use crate::shape::left_ok;
use crate::shape::live;
use crate::shape::node_ok;
use crate::shape::right_ok;
use crate::shape::shape_ok;
use crate::shape::span_ok;
use crate::shape::subtree_ok;
use crate::shape::up_ok;
use crate::shape::within;

verus! {

/// Node `nd` with another parent link.
pub open spec fn with_parent<K, P>(nd: Node<K, P>, parent: Option<usize>) -> Node<K, P> {
    Node { parent: parent, ..nd }
}

/// Node `nd` with another right child link.
pub open spec fn with_right<K, P>(nd: Node<K, P>, right: Option<usize>) -> Node<K, P> {
    Node { right_child: right, ..nd }
}

/// The child that takes a removed node's place: its left child if it has
/// one, else its right child, else nothing.
pub open spec fn replacement(left: Option<usize>, right: Option<usize>) -> Option<usize> {
    if left.is_some() {
        left
    } else {
        right
    }
}

/// The slots after the two subtrees of a removed node were joined under
/// `new_parent`: the left child takes the place and the right subtree hangs
/// under `m`, the last node of the left subtree; a single child takes the
/// place by itself.
pub open spec fn spliced<K, P>(
    slots: Seq<Option<Node<K, P>>>,
    left: Option<usize>,
    right: Option<usize>,
    new_parent: Option<usize>,
    m: usize,
) -> Seq<Option<Node<K, P>>> {
    match left {
        Some(l) => {
            let s1 = slots.update(l as int, Some(with_parent(slots[l as int]->0, new_parent)));
            match right {
                Some(r) => {
                    let s2 = s1.update(m as int, Some(with_right(s1[m as int]->0, Some(r))));
                    s2.update(r as int, Some(with_parent(s2[r as int]->0, Some(m))))
                },
                None => s1,
            }
        },
        None => match right {
            Some(r) => slots.update(r as int, Some(with_parent(slots[r as int]->0, new_parent))),
            None => slots,
        },
    }
}

/// The slot of the last node under the left child `left`, where the right
/// subtree of a removed node is hung.
pub open spec fn joint(g: Shape, left: Option<usize>) -> usize {
    match left {
        Some(l) => g.order[(g.hi)(l as int) - 1] as usize,
        None => 0,
    }
}

/// Node `pn` with its link to `i` replaced by `to`: the left link if that
/// one leads to `i`, else the right link.
pub open spec fn swap_child<K, P>(pn: Node<K, P>, i: usize, to: Option<usize>) -> Node<K, P> {
    if leads_to(pn.left_child, i as int) {
        Node { left_child: to, ..pn }
    } else {
        Node { right_child: to, ..pn }
    }
}

/// The slots after node `i` was taken out of the tree: its slot is empty,
/// its subtrees are joined, and its parent points at what took its place.
#[verifier::opaque]
pub open spec fn unlinked<K, P>(slots: Seq<Option<Node<K, P>>>, i: usize, m: usize) -> Seq<
    Option<Node<K, P>>,
> {
    let nd = slots[i as int]->0;
    let base = spliced(slots.update(i as int, None), nd.left_child, nd.right_child, nd.parent, m);
    match nd.parent {
        Some(q) => base.update(
            q as int,
            Some(swap_child(base[q as int]->0, i, replacement(nd.left_child, nd.right_child))),
        ),
        None => base,
    }
}

/// The root after node `i` was taken out.
pub open spec fn unlinked_root<K, P>(
    slots: Seq<Option<Node<K, P>>>,
    root: Option<usize>,
    i: usize,
) -> Option<usize> {
    let nd = slots[i as int]->0;
    if nd.parent.is_none() {
        replacement(nd.left_child, nd.right_child)
    } else {
        root
    }
}

/// The layout after the node at place `p` left the order. Later places move
/// down by one; where the node had a left child (`bridge`), the spans that
/// ended at `p` now reach to where the node's own span ended, `top`.
pub open spec fn narrowed(g: Shape, p: int, bridge: bool, top: int) -> Shape {
    Shape {
        order: g.order.remove(p),
        rank: |s: int|
            if (g.rank)(s) > p {
                (g.rank)(s) - 1
            } else {
                (g.rank)(s)
            },
        lo: |s: int|
            if (g.lo)(s) > p {
                (g.lo)(s) - 1
            } else {
                (g.lo)(s)
            },
        hi: |s: int|
            if (g.hi)(s) > p {
                (g.hi)(s) - 1
            } else if (g.hi)(s) == p && bridge {
                top - 1
            } else {
                (g.hi)(s)
            },
    }
}

/// The layout after node `i` was taken out.
pub open spec fn unlinked_shape<K, P>(slots: Seq<Option<Node<K, P>>>, g: Shape, i: usize) -> Shape {
    narrowed(g, (g.rank)(i as int), (slots[i as int]->0).left_child.is_some(), (g.hi)(i as int))
}

/// What taking node `i` out asks for: a search tree, `i` live in it, and,
/// where `i` has both children, `m` the last node under the left child.
pub open spec fn can_unlink<K: SearchKey, P>(
    slots: Seq<Option<Node<K, P>>>,
    root: Option<usize>,
    g: Shape,
    i: usize,
    m: usize,
) -> bool {
    let nd = slots[i as int]->0;
    &&& shape_ok(slots, root, g)
    &&& live(slots, i as int)
    &&& nd.left_child.is_some() && nd.right_child.is_some() ==> {
        &&& live(slots, m as int)
        &&& (g.rank)(m as int) == (g.rank)(i as int) - 1
        &&& (slots[m as int]->0).right_child.is_none()
    }
}

/// What a node other than `i` holds after `i` was taken out.
pub open spec fn relinked<K, P>(slots: Seq<Option<Node<K, P>>>, i: usize, m: usize, s: int) -> Node<
    K,
    P,
> {
    let nd = slots[i as int]->0;
    let o = slots[s]->0;
    let both = nd.left_child.is_some() && nd.right_child.is_some();
    let to = replacement(nd.left_child, nd.right_child);
    Node {
        content: o.content,
        parent: if leads_to(nd.left_child, s) {
            nd.parent
        } else if leads_to(nd.right_child, s) {
            if nd.left_child.is_some() {
                Some(m)
            } else {
                nd.parent
            }
        } else {
            o.parent
        },
        left_child: if leads_to(nd.parent, s) && leads_to(o.left_child, i as int) {
            to
        } else {
            o.left_child
        },
        right_child: if both && s == m as int {
            nd.right_child
        } else if leads_to(nd.parent, s) && !leads_to(o.left_child, i as int) {
            to
        } else {
            o.right_child
        },
    }
}

/// What each slot holds after node `i` was taken out: nothing at `i` and at
/// the slots that were empty, and elsewhere the old node with the links
/// that `relinked` gives.
proof fn lemma_unlinked_at<K: SearchKey, P>(
    slots: Seq<Option<Node<K, P>>>,
    root: Option<usize>,
    g: Shape,
    i: usize,
    m: usize,
    s: int,
)
    requires
        can_unlink(slots, root, g, i, m),
        0 <= s < slots.len(),
    ensures
        unlinked(slots, i, m).len() == slots.len(),
        unlinked(slots, i, m)[s] == (if s == i as int || slots[s].is_none() {
            None
        } else {
            Some(relinked(slots, i, m, s))
        }),
{
    reveal(unlinked);
    let nd = slots[i as int]->0;
    assert(node_ok(slots, root, g, i as int));
    assert(node_ok(slots, root, g, s));
    match nd.left_child {
        Some(l) => {
            assert(node_ok(slots, root, g, l as int));
        },
        None => {},
    }
    match nd.right_child {
        Some(r) => {
            assert(node_ok(slots, root, g, r as int));
        },
        None => {},
    }
    match nd.parent {
        Some(q) => {
            assert(node_ok(slots, root, g, q as int));
        },
        None => {},
    }
    if nd.left_child.is_some() && nd.right_child.is_some() {
        assert(node_ok(slots, root, g, m as int));
    }
}

/// After node `i` was taken out, each other live node sits inside its span.
#[verifier::rlimit(60)]
#[verifier::spinoff_prover]
proof fn lemma_unlink_span<K: SearchKey, P>(
    slots: Seq<Option<Node<K, P>>>,
    root: Option<usize>,
    g: Shape,
    i: usize,
    m: usize,
    s: int,
)
    requires
        can_unlink(slots, root, g, i, m),
        live(slots, s),
        s != i as int,
    ensures
        span_ok(unlinked_shape(slots, g, i), s),
{
    let nd = slots[i as int]->0;
    let o = slots[s]->0;
    let after = unlinked(slots, i, m);
    let h = unlinked_shape(slots, g, i);
    let p = (g.rank)(i as int);
    let both = nd.left_child.is_some() && nd.right_child.is_some();
    lemma_unlinked_at(slots, root, g, i, m, s);
    assert(node_ok(slots, root, g, i as int));
    assert(node_ok(slots, root, g, s));
    assert((g.rank)(s) != p);
    match nd.left_child {
        Some(l) => {
            assert(node_ok(slots, root, g, l as int));
            lemma_unlinked_at(slots, root, g, i, m, l as int);
        },
        None => {},
    }
    match nd.right_child {
        Some(r) => {
            assert(node_ok(slots, root, g, r as int));
            lemma_unlinked_at(slots, root, g, i, m, r as int);
        },
        None => {},
    }
    match nd.parent {
        Some(q) => {
            assert(node_ok(slots, root, g, q as int));
            lemma_unlinked_at(slots, root, g, i, m, q as int);
        },
        None => {},
    }
    if both {
        assert(node_ok(slots, root, g, m as int));
        lemma_unlinked_at(slots, root, g, i, m, m as int);
        assert(g.order[p - 1] == m as int);
    }
    assert(after[s] == Some(relinked(slots, i, m, s)));
    assert(h.order[(h.rank)(s)] == s);
}

/// After node `i` was taken out, each other live node's left link agrees
/// with the layout.
#[verifier::rlimit(60)]
#[verifier::spinoff_prover]
proof fn lemma_unlink_left<K: SearchKey, P>(
    slots: Seq<Option<Node<K, P>>>,
    root: Option<usize>,
    g: Shape,
    i: usize,
    m: usize,
    s: int,
)
    requires
        can_unlink(slots, root, g, i, m),
        live(slots, s),
        s != i as int,
    ensures
        left_ok(unlinked(slots, i, m), unlinked_shape(slots, g, i), s),
{
    let nd = slots[i as int]->0;
    let o = slots[s]->0;
    let after = unlinked(slots, i, m);
    let h = unlinked_shape(slots, g, i);
    let p = (g.rank)(i as int);
    let both = nd.left_child.is_some() && nd.right_child.is_some();
    lemma_unlinked_at(slots, root, g, i, m, s);
    assert(node_ok(slots, root, g, i as int));
    assert(node_ok(slots, root, g, s));
    assert((g.rank)(s) != p);
    match nd.left_child {
        Some(l) => {
            assert(node_ok(slots, root, g, l as int));
            lemma_unlinked_at(slots, root, g, i, m, l as int);
        },
        None => {},
    }
    match nd.right_child {
        Some(r) => {
            assert(node_ok(slots, root, g, r as int));
            lemma_unlinked_at(slots, root, g, i, m, r as int);
        },
        None => {},
    }
    match nd.parent {
        Some(q) => {
            assert(node_ok(slots, root, g, q as int));
            lemma_unlinked_at(slots, root, g, i, m, q as int);
        },
        None => {},
    }
    if both {
        assert(node_ok(slots, root, g, m as int));
        lemma_unlinked_at(slots, root, g, i, m, m as int);
        assert(g.order[p - 1] == m as int);
    }
    assert(after[s] == Some(relinked(slots, i, m, s)));
    match o.left_child {
        Some(c) => {
            assert(node_ok(slots, root, g, c as int));
            lemma_unlinked_at(slots, root, g, i, m, c as int);
        },
        None => {},
    }
}

/// After node `i` was taken out, each other live node's right link agrees
/// with the layout.
#[verifier::rlimit(60)]
#[verifier::spinoff_prover]
proof fn lemma_unlink_right<K: SearchKey, P>(
    slots: Seq<Option<Node<K, P>>>,
    root: Option<usize>,
    g: Shape,
    i: usize,
    m: usize,
    s: int,
)
    requires
        can_unlink(slots, root, g, i, m),
        live(slots, s),
        s != i as int,
    ensures
        right_ok(unlinked(slots, i, m), unlinked_shape(slots, g, i), s),
{
    let nd = slots[i as int]->0;
    let o = slots[s]->0;
    let after = unlinked(slots, i, m);
    let h = unlinked_shape(slots, g, i);
    let p = (g.rank)(i as int);
    let both = nd.left_child.is_some() && nd.right_child.is_some();
    lemma_unlinked_at(slots, root, g, i, m, s);
    assert(node_ok(slots, root, g, i as int));
    assert(node_ok(slots, root, g, s));
    assert((g.rank)(s) != p);
    match nd.left_child {
        Some(l) => {
            assert(node_ok(slots, root, g, l as int));
            lemma_unlinked_at(slots, root, g, i, m, l as int);
        },
        None => {},
    }
    match nd.right_child {
        Some(r) => {
            assert(node_ok(slots, root, g, r as int));
            lemma_unlinked_at(slots, root, g, i, m, r as int);
        },
        None => {},
    }
    match nd.parent {
        Some(q) => {
            assert(node_ok(slots, root, g, q as int));
            lemma_unlinked_at(slots, root, g, i, m, q as int);
        },
        None => {},
    }
    if both {
        assert(node_ok(slots, root, g, m as int));
        lemma_unlinked_at(slots, root, g, i, m, m as int);
        assert(g.order[p - 1] == m as int);
    }
    assert(after[s] == Some(relinked(slots, i, m, s)));
    match o.right_child {
        Some(c) => {
            assert(node_ok(slots, root, g, c as int));
            lemma_unlinked_at(slots, root, g, i, m, c as int);
        },
        None => {},
    }
}

/// After node `i` was taken out, each other live node's parent link agrees
/// with the tree.
#[verifier::rlimit(60)]
#[verifier::spinoff_prover]
proof fn lemma_unlink_up<K: SearchKey, P>(
    slots: Seq<Option<Node<K, P>>>,
    root: Option<usize>,
    g: Shape,
    i: usize,
    m: usize,
    s: int,
)
    requires
        can_unlink(slots, root, g, i, m),
        live(slots, s),
        s != i as int,
    ensures
        up_ok(unlinked(slots, i, m), unlinked_root(slots, root, i), s),
{
    let nd = slots[i as int]->0;
    let o = slots[s]->0;
    let after = unlinked(slots, i, m);
    let h = unlinked_shape(slots, g, i);
    let p = (g.rank)(i as int);
    let both = nd.left_child.is_some() && nd.right_child.is_some();
    lemma_unlinked_at(slots, root, g, i, m, s);
    assert(node_ok(slots, root, g, i as int));
    assert(node_ok(slots, root, g, s));
    assert((g.rank)(s) != p);
    match nd.left_child {
        Some(l) => {
            assert(node_ok(slots, root, g, l as int));
            lemma_unlinked_at(slots, root, g, i, m, l as int);
        },
        None => {},
    }
    match nd.right_child {
        Some(r) => {
            assert(node_ok(slots, root, g, r as int));
            lemma_unlinked_at(slots, root, g, i, m, r as int);
        },
        None => {},
    }
    match nd.parent {
        Some(q) => {
            assert(node_ok(slots, root, g, q as int));
            lemma_unlinked_at(slots, root, g, i, m, q as int);
        },
        None => {},
    }
    if both {
        assert(node_ok(slots, root, g, m as int));
        lemma_unlinked_at(slots, root, g, i, m, m as int);
        assert(g.order[p - 1] == m as int);
    }
    assert(after[s] == Some(relinked(slots, i, m, s)));
    match o.parent {
        Some(q) => {
            assert(node_ok(slots, root, g, q as int));
            lemma_unlinked_at(slots, root, g, i, m, q as int);
        },
        None => {},
    }
}

/// After node `i` was taken out, each other live node is linked as the
/// layout says.
proof fn lemma_unlink_node<K: SearchKey, P>(
    slots: Seq<Option<Node<K, P>>>,
    root: Option<usize>,
    g: Shape,
    i: usize,
    m: usize,
    s: int,
)
    requires
        can_unlink(slots, root, g, i, m),
        live(slots, s),
        s != i as int,
    ensures
        down_ok(unlinked(slots, i, m), unlinked_shape(slots, g, i), s),
        up_ok(unlinked(slots, i, m), unlinked_root(slots, root, i), s),
{
    lemma_unlink_span(slots, root, g, i, m, s);
    lemma_unlink_left(slots, root, g, i, m, s);
    lemma_unlink_right(slots, root, g, i, m, s);
    lemma_unlink_up(slots, root, g, i, m, s);
}

/// The order after node `i` was taken out is the old order without its
/// place, and each place holds the entry that it held before.
proof fn lemma_unlink_order<K: SearchKey, P>(
    slots: Seq<Option<Node<K, P>>>,
    root: Option<usize>,
    g: Shape,
    i: usize,
    m: usize,
    k: int,
)
    requires
        can_unlink(slots, root, g, i, m),
        0 <= k < g.order.len() - 1,
    ensures
        ({
            let p = (g.rank)(i as int);
            let after = unlinked(slots, i, m);
            let h = unlinked_shape(slots, g, i);
            let k0 = if k < p { k } else { k + 1 };
            &&& 0 <= p < g.order.len()
            &&& h.order.len() == g.order.len() - 1
            &&& h.order[k] == g.order[k0]
            &&& live(slots, g.order[k0])
            &&& live(after, h.order[k])
            &&& (h.rank)(h.order[k]) == k
            &&& (after[h.order[k]]->0).content == (slots[g.order[k0]]->0).content
        }),
{
    let p = (g.rank)(i as int);
    let k0 = if k < p { k } else { k + 1 };
    assert(node_ok(slots, root, g, i as int));
    assert(live(slots, g.order[k0]));
    assert(g.order[k0] != i as int);
    lemma_unlinked_at(slots, root, g, i, m, g.order[k0]);
}

/// Taking a node out of a search tree leaves a search tree whose entries are
/// the old ones without the entry of that node.
pub proof fn lemma_unlink<K: SearchKey, P>(
    slots: Seq<Option<Node<K, P>>>,
    root: Option<usize>,
    g: Shape,
    i: usize,
    m: usize,
)
    requires
        can_unlink(slots, root, g, i, m),
    ensures
        shape_ok(unlinked(slots, i, m), unlinked_root(slots, root, i), unlinked_shape(slots, g, i)),
        0 <= (g.rank)(i as int) < g.order.len(),
        entries(unlinked(slots, i, m), unlinked_shape(slots, g, i)) == entries(slots, g).remove(
            (g.rank)(i as int),
        ),
        entries(slots, g)[(g.rank)(i as int)] == (slots[i as int]->0).content,
{
    let nd = slots[i as int]->0;
    let p = (g.rank)(i as int);
    let after = unlinked(slots, i, m);
    let h = unlinked_shape(slots, g, i);
    let root2 = unlinked_root(slots, root, i);
    assert(node_ok(slots, root, g, i as int));
    assert(h.order.len() == g.order.len() - 1);
    assert forall|k: int| 0 <= k < h.order.len() implies live(after, #[trigger] h.order[k]) && (h.rank)(
        h.order[k],
    ) == k by {
        lemma_unlink_order(slots, root, g, i, m, k);
    }
    assert forall|s: int| #[trigger] node_ok(after, root2, h, s) by {
        if 0 <= s < slots.len() {
            lemma_unlinked_at(slots, root, g, i, m, s);
        }
        lemma_unlinked_at(slots, root, g, i, m, i as int);
        if live(after, s) {
            lemma_unlink_node(slots, root, g, i, m, s);
        }
    }
    assert forall|a: int, b: int| 0 <= a < b < h.order.len() implies #[trigger] ascends(after, h, a, b) by {
        lemma_unlink_order(slots, root, g, i, m, a);
        lemma_unlink_order(slots, root, g, i, m, b);
        let a0 = if a < p { a } else { a + 1 };
        let b0 = if b < p { b } else { b + 1 };
        assert(ascends(slots, g, a0, b0));
    }
    match root2 {
        Some(r) => {
            assert(0 <= r < slots.len() && live(slots, r as int) && r != i) by {
                if nd.parent.is_none() {
                    assert(node_ok(slots, root, g, r as int));
                }
            }
            assert(node_ok(slots, root, g, r as int));
            lemma_unlinked_at(slots, root, g, i, m, r as int);
            lemma_unlink_node(slots, root, g, i, m, r as int);
        },
        None => {},
    }
    let want = entries(slots, g).remove(p);
    assert forall|k: int| 0 <= k < h.order.len() implies #[trigger] entries(after, h)[k] == want[k] by {
        lemma_unlink_order(slots, root, g, i, m, k);
    }
    assert(entries(after, h) =~= want);
}

/// Emptying the slot of node `i` leaves the nodes under its left child
/// linked downwards as before, and its children and parent live.
pub proof fn lemma_hole<K: SearchKey, P>(
    slots: Seq<Option<Node<K, P>>>,
    root: Option<usize>,
    g: Shape,
    i: usize,
)
    requires
        shape_ok(slots, root, g),
        live(slots, i as int),
    ensures
        match (slots[i as int]->0).left_child {
            Some(l) => subtree_ok(slots.update(i as int, None), g, l as int),
            None => true,
        },
        match (slots[i as int]->0).right_child {
            Some(r) => live(slots.update(i as int, None), r as int),
            None => true,
        },
        match (slots[i as int]->0).parent {
            Some(q) => live(slots.update(i as int, None), q as int),
            None => true,
        },
{
    let nd = slots[i as int]->0;
    let s0 = slots.update(i as int, None);
    assert(node_ok(slots, root, g, i as int));
    match nd.right_child {
        Some(r) => {
            assert(node_ok(slots, root, g, r as int));
        },
        None => {},
    }
    match nd.parent {
        Some(q) => {
            assert(node_ok(slots, root, g, q as int));
        },
        None => {},
    }
    match nd.left_child {
        Some(l) => {
            assert(node_ok(slots, root, g, l as int));
            assert forall|s: int| live(s0, s) && within(g, l as int, s) implies #[trigger] down_ok(
                s0,
                g,
                s,
            ) by {
                assert(node_ok(slots, root, g, s));
                match (slots[s]->0).left_child {
                    Some(c) => {
                        assert(node_ok(slots, root, g, c as int));
                    },
                    None => {},
                }
                match (slots[s]->0).right_child {
                    Some(c) => {
                        assert(node_ok(slots, root, g, c as int));
                    },
                    None => {},
                }
            }
        },
        None => {},
    }
}

/// Giving the top node of a subtree another parent leaves the nodes of the
/// subtree linked downwards as before.
pub proof fn lemma_reparent<K, P>(
    slots: Seq<Option<Node<K, P>>>,
    g: Shape,
    l: usize,
    new_parent: Option<usize>,
)
    requires
        subtree_ok(slots, g, l as int),
    ensures
        subtree_ok(
            slots.update(l as int, Some(with_parent(slots[l as int]->0, new_parent))),
            g,
            l as int,
        ),
{
    let s1 = slots.update(l as int, Some(with_parent(slots[l as int]->0, new_parent)));
    assert forall|s: int| live(s1, s) && within(g, l as int, s) implies #[trigger] down_ok(s1, g, s) by {
        assert(down_ok(slots, g, s));
        assert(down_ok(slots, g, l as int));
    }
}

/// Joining the subtrees of a removed node touches neither the removed
/// node's parent nor its empty slot.
pub proof fn lemma_parent_untouched<K: SearchKey, P>(
    slots: Seq<Option<Node<K, P>>>,
    root: Option<usize>,
    g: Shape,
    i: usize,
    m: usize,
)
    requires
        can_unlink(slots, root, g, i, m),
    ensures
        ({
            let nd = slots[i as int]->0;
            let base = spliced(
                slots.update(i as int, None),
                nd.left_child,
                nd.right_child,
                nd.parent,
                m,
            );
            &&& base.len() == slots.len()
            &&& match nd.parent {
                Some(q) => {
                    &&& base[q as int] == slots[q as int]
                    &&& live(slots, q as int)
                    &&& leads_to((slots[q as int]->0).left_child, i as int) || leads_to(
                        (slots[q as int]->0).right_child,
                        i as int,
                    )
                },
                None => leads_to(root, i as int),
            }
        }),
{
    let nd = slots[i as int]->0;
    assert(node_ok(slots, root, g, i as int));
    match nd.left_child {
        Some(l) => {
            assert(node_ok(slots, root, g, l as int));
        },
        None => {},
    }
    match nd.right_child {
        Some(r) => {
            assert(node_ok(slots, root, g, r as int));
        },
        None => {},
    }
    match nd.parent {
        Some(q) => {
            assert(node_ok(slots, root, g, q as int));
        },
        None => {},
    }
    if nd.left_child.is_some() && nd.right_child.is_some() {
        assert(node_ok(slots, root, g, m as int));
    }
}

/// The place of what takes the place of the node at place `p`: its left
/// child, else its right child, which moves down by one, else nothing.
pub open spec fn successor_place(l: Option<int>, r: Option<int>, p: int) -> Option<int> {
    if l.is_some() {
        l
    } else {
        lowered_link(r, p)
    }
}

/// After a node was taken out, a link that led to it leads to what took its
/// place, the last node under its left child has its right child as right
/// child, and every other link leads to the node that it led to before.
pub proof fn lemma_unlink_places<K: SearchKey, P>(
    slots: Seq<Option<Node<K, P>>>,
    root: Option<usize>,
    g: Shape,
    i: usize,
    m: usize,
    j: int,
)
    requires
        can_unlink(slots, root, g, i, m),
        0 <= j < g.order.len() - 1,
    ensures
        ({
            let p = (g.rank)(i as int);
            let after = unlinked(slots, i, m);
            let h = unlinked_shape(slots, g, i);
            let k = raised(j, p);
            let l = left_place_of(slots, g, p);
            let r = right_place_of(slots, g, p);
            let to = successor_place(l, r, p);
            &&& left_place_of(after, h, j) == (if left_place_of(slots, g, k) == Some(p) {
                to
            } else {
                lowered_link(left_place_of(slots, g, k), p)
            })
            &&& right_place_of(after, h, j) == (if right_place_of(slots, g, k) == Some(p) {
                to
            } else if l.is_some() && r.is_some() && k == p - 1 {
                lowered_link(r, p)
            } else {
                lowered_link(right_place_of(slots, g, k), p)
            })
        }),
{
    let p = (g.rank)(i as int);
    let nd = slots[i as int]->0;
    let k = raised(j, p);
    let s = g.order[k];
    lemma_unlink_order(slots, root, g, i, m, j);
    lemma_unlinked_at(slots, root, g, i, m, s);
    assert(node_ok(slots, root, g, i as int));
    assert(node_ok(slots, root, g, s));
    match nd.left_child {
        Some(c) => {
            assert(node_ok(slots, root, g, c as int));
        },
        None => {},
    }
    match nd.right_child {
        Some(c) => {
            assert(node_ok(slots, root, g, c as int));
        },
        None => {},
    }
    match nd.parent {
        Some(q) => {
            assert(node_ok(slots, root, g, q as int));
        },
        None => {},
    }
    if nd.left_child.is_some() && nd.right_child.is_some() {
        assert(node_ok(slots, root, g, m as int));
    }
    match (slots[s]->0).left_child {
        Some(c) => {
            assert(node_ok(slots, root, g, c as int));
        },
        None => {},
    }
    match (slots[s]->0).right_child {
        Some(c) => {
            assert(node_ok(slots, root, g, c as int));
        },
        None => {},
    }
}

/// After a node was taken out, the root is where it was, or, if the node
/// was the root, where what took its place is.
pub proof fn lemma_unlink_root<K: SearchKey, P>(
    slots: Seq<Option<Node<K, P>>>,
    root: Option<usize>,
    g: Shape,
    i: usize,
    m: usize,
)
    requires
        can_unlink(slots, root, g, i, m),
    ensures
        ({
            let p = (g.rank)(i as int);
            let h = unlinked_shape(slots, g, i);
            let to = successor_place(left_place_of(slots, g, p), right_place_of(slots, g, p), p);
            place_of_link(h, unlinked_root(slots, root, i)) == (if place_of_link(g, root) == Some(p) {
                to
            } else {
                lowered_link(place_of_link(g, root), p)
            })
        }),
{
    let nd = slots[i as int]->0;
    assert(node_ok(slots, root, g, i as int));
    match root {
        Some(r) => {
            assert(node_ok(slots, root, g, r as int));
        },
        None => {},
    }
    match nd.left_child {
        Some(c) => {
            assert(node_ok(slots, root, g, c as int));
        },
        None => {},
    }
    match nd.right_child {
        Some(c) => {
            assert(node_ok(slots, root, g, c as int));
        },
        None => {},
    }
    match nd.parent {
        Some(q) => {
            assert(node_ok(slots, root, g, q as int));
        },
        None => {},
    }
}

} // verus!
