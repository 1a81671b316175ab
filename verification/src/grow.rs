//! Adding a leaf keeps a search tree a search tree.

use vstd::prelude::*;
use crate::keys::SearchKey;
use crate::node::Content;
use crate::node::Node;
use crate::arena::grown;
use crate::node::leaf;
use crate::shape::Shape;
use crate::shape::lemma_follower_has_left;
use crate::shape::lowered;
use crate::shape::raised_link;
use crate::shape::right_place_of;
use crate::shape::left_place_of;
use crate::shape::ascends;
use crate::shape::down_ok;
use crate::shape::entries;
use crate::shape::gap_at;
use crate::shape::key_at;
use crate::shape::left_ok;
use crate::shape::live;
use crate::shape::node_ok;
use crate::shape::right_ok;
use crate::shape::shape_ok;
use crate::shape::span_ok;
use crate::shape::up_ok;

verus! {

/// The layout after the slot `x` takes place `p` of the order as a leaf.
/// Spans that begin or end at `edge` or later move up by one.
pub open spec fn widened(g: Shape, p: int, x: int, edge: int) -> Shape {
    Shape {
        order: g.order.insert(p, x),
        rank: |s: int|
            if s == x {
                p
            } else if (g.rank)(s) >= p {
                (g.rank)(s) + 1
            } else {
                (g.rank)(s)
            },
        lo: |s: int|
            if s == x {
                p
            } else if (g.lo)(s) >= edge {
                (g.lo)(s) + 1
            } else {
                (g.lo)(s)
            },
        hi: |s: int|
            if s == x {
                p + 1
            } else if (g.hi)(s) >= edge {
                (g.hi)(s) + 1
            } else {
                (g.hi)(s)
            },
    }
}

/// Node `nd` with `x` as its left or right child.
pub open spec fn with_child<K, P>(nd: Node<K, P>, x: usize, left: bool) -> Node<K, P> {
    if left {
        Node { left_child: Some(x), ..nd }
    } else {
        Node { right_child: Some(x), ..nd }
    }
}

/// The slots after a leaf with the given entry was stored at `x` and hung
/// under node `i` on the given side.
#[verifier::opaque]
pub open spec fn linked<K, P>(
    slots: Seq<Option<Node<K, P>>>,
    i: usize,
    x: usize,
    key: K,
    payload: P,
    left: bool,
) -> Seq<Option<Node<K, P>>> {
    grown(slots, x as int, leaf(key, payload, Some(i))).update(
        i as int,
        Some(with_child(slots[i as int]->0, x, left)),
    )
}

/// What hanging a new leaf at slot `x` under node `i` asks for: the search
/// for the key ended there, and `x` is an empty slot or the one past the end.
pub open spec fn leaf_fits<K: SearchKey, P>(
    slots: Seq<Option<Node<K, P>>>,
    root: Option<usize>,
    g: Shape,
    i: usize,
    x: usize,
    key: K,
    left: bool,
) -> bool {
    &&& gap_at(slots, root, g, i, &key, left)
    &&& !live(slots, x as int)
    &&& x <= slots.len()
}

/// The place in the order that a new leaf under node `i` takes.
pub open spec fn leaf_place(g: Shape, i: usize, left: bool) -> int {
    if left {
        (g.rank)(i as int)
    } else {
        (g.rank)(i as int) + 1
    }
}

/// The layout after a new leaf at slot `x` was hung under node `i`.
pub open spec fn leaf_shape(g: Shape, i: usize, x: usize, left: bool) -> Shape {
    let p = leaf_place(g, i, left);
    widened(g, p, x as int, if left { p + 1 } else { p })
}

/// What each slot holds after the leaf was hung: the leaf at `x`, node `i`
/// with its new child, and everything else as before.
proof fn lemma_linked_at<K, P>(
    slots: Seq<Option<Node<K, P>>>,
    i: usize,
    x: usize,
    key: K,
    payload: P,
    left: bool,
    s: int,
)
    requires
        live(slots, i as int),
        !live(slots, x as int),
        x <= slots.len(),
    ensures
        linked(slots, i, x, key, payload, left).len() == (if x < slots.len() {
            slots.len()
        } else {
            slots.len() + 1
        }),
        0 <= s < linked(slots, i, x, key, payload, left).len() ==> linked(
            slots,
            i,
            x,
            key,
            payload,
            left,
        )[s] == (if s == x as int {
            Some(leaf(key, payload, Some(i)))
        } else if s == i as int {
            Some(with_child(slots[s]->0, x, left))
        } else {
            slots[s]
        }),
{
    reveal(linked);
}

/// The order after the leaf was hung is the old order with `x` put in at
/// the leaf's place, and each place holds the entry that it held before.
proof fn lemma_link_order<K: SearchKey, P>(
    slots: Seq<Option<Node<K, P>>>,
    root: Option<usize>,
    g: Shape,
    i: usize,
    x: usize,
    key: K,
    payload: P,
    left: bool,
    k: int,
)
    requires
        leaf_fits(slots, root, g, i, x, key, left),
        0 <= k <= g.order.len(),
    ensures
        ({
            let p = leaf_place(g, i, left);
            let after = linked(slots, i, x, key, payload, left);
            let h = leaf_shape(g, i, x, left);
            &&& 0 <= p <= g.order.len()
            &&& h.order.len() == g.order.len() + 1
            &&& live(after, h.order[k])
            &&& (h.rank)(h.order[k]) == k
            &&& k < p ==> h.order[k] == g.order[k] && live(slots, g.order[k])
            &&& k > p ==> h.order[k] == g.order[k - 1] && live(slots, g.order[k - 1])
            &&& k == p ==> h.order[k] == x
            &&& (after[h.order[k]]->0).content == (if k < p {
                (slots[g.order[k]]->0).content
            } else if k > p {
                (slots[g.order[k - 1]]->0).content
            } else {
                Content { key: key, payload: payload }
            })
        }),
{
    let p = leaf_place(g, i, left);
    let h = leaf_shape(g, i, x, left);
    assert(node_ok(slots, root, g, i as int));
    if k < p {
        assert(live(slots, g.order[k]));
    } else if k > p {
        assert(live(slots, g.order[k - 1]));
    }
    lemma_linked_at(slots, i, x, key, payload, left, h.order[k]);
}

/// After the leaf was hung, each live node sits inside its span.
#[verifier::rlimit(60)]
#[verifier::spinoff_prover]
proof fn lemma_link_span<K: SearchKey, P>(
    slots: Seq<Option<Node<K, P>>>,
    root: Option<usize>,
    g: Shape,
    i: usize,
    x: usize,
    key: K,
    payload: P,
    left: bool,
    s: int,
)
    requires
        leaf_fits(slots, root, g, i, x, key, left),
        live(linked(slots, i, x, key, payload, left), s),
    ensures
        span_ok(leaf_shape(g, i, x, left), s),
{
    let after = linked(slots, i, x, key, payload, left);
    let h = leaf_shape(g, i, x, left);
    let p = leaf_place(g, i, left);
    let o = slots[s]->0;
    assert(node_ok(slots, root, g, i as int));
    assert(h.order.len() == g.order.len() + 1);
    assert(h.order[p] == x);
    lemma_linked_at(slots, i, x, key, payload, left, s);
    lemma_linked_at(slots, i, x, key, payload, left, i as int);
    lemma_linked_at(slots, i, x, key, payload, left, x as int);
    if s != x as int {
        assert(live(slots, s));
        assert(node_ok(slots, root, g, s));
        if s != i as int {
            assert((g.rank)(s) != (g.rank)(i as int));
        }
    }
    if s != x as int {
        assert(h.order[(h.rank)(s)] == g.order[(g.rank)(s)]);
    }
}

/// After the leaf was hung, each live node's left link agrees with the layout.
#[verifier::rlimit(60)]
#[verifier::spinoff_prover]
proof fn lemma_link_left<K: SearchKey, P>(
    slots: Seq<Option<Node<K, P>>>,
    root: Option<usize>,
    g: Shape,
    i: usize,
    x: usize,
    key: K,
    payload: P,
    left: bool,
    s: int,
)
    requires
        leaf_fits(slots, root, g, i, x, key, left),
        live(linked(slots, i, x, key, payload, left), s),
    ensures
        left_ok(linked(slots, i, x, key, payload, left), leaf_shape(g, i, x, left), s),
{
    let after = linked(slots, i, x, key, payload, left);
    let h = leaf_shape(g, i, x, left);
    let p = leaf_place(g, i, left);
    let o = slots[s]->0;
    assert(node_ok(slots, root, g, i as int));
    assert(h.order.len() == g.order.len() + 1);
    assert(h.order[p] == x);
    lemma_linked_at(slots, i, x, key, payload, left, s);
    lemma_linked_at(slots, i, x, key, payload, left, i as int);
    lemma_linked_at(slots, i, x, key, payload, left, x as int);
    if s != x as int {
        assert(live(slots, s));
        assert(node_ok(slots, root, g, s));
        if s != i as int {
            assert((g.rank)(s) != (g.rank)(i as int));
        }
    }
    if s != x as int {
        match o.left_child {
            Some(c) => {
                assert(node_ok(slots, root, g, c as int));
                lemma_linked_at(slots, i, x, key, payload, left, c as int);
            },
            None => {},
        }
    }
}

/// After the leaf was hung, each live node's right link agrees with the layout.
#[verifier::rlimit(60)]
#[verifier::spinoff_prover]
proof fn lemma_link_right<K: SearchKey, P>(
    slots: Seq<Option<Node<K, P>>>,
    root: Option<usize>,
    g: Shape,
    i: usize,
    x: usize,
    key: K,
    payload: P,
    left: bool,
    s: int,
)
    requires
        leaf_fits(slots, root, g, i, x, key, left),
        live(linked(slots, i, x, key, payload, left), s),
    ensures
        right_ok(linked(slots, i, x, key, payload, left), leaf_shape(g, i, x, left), s),
{
    let after = linked(slots, i, x, key, payload, left);
    let h = leaf_shape(g, i, x, left);
    let p = leaf_place(g, i, left);
    let o = slots[s]->0;
    assert(node_ok(slots, root, g, i as int));
    assert(h.order.len() == g.order.len() + 1);
    assert(h.order[p] == x);
    lemma_linked_at(slots, i, x, key, payload, left, s);
    lemma_linked_at(slots, i, x, key, payload, left, i as int);
    lemma_linked_at(slots, i, x, key, payload, left, x as int);
    if s != x as int {
        assert(live(slots, s));
        assert(node_ok(slots, root, g, s));
        if s != i as int {
            assert((g.rank)(s) != (g.rank)(i as int));
        }
    }
    if s != x as int {
        match o.right_child {
            Some(c) => {
                assert(node_ok(slots, root, g, c as int));
                lemma_linked_at(slots, i, x, key, payload, left, c as int);
            },
            None => {},
        }
    }
}

/// After the leaf was hung, each live node's parent link agrees with the tree.
#[verifier::rlimit(60)]
#[verifier::spinoff_prover]
proof fn lemma_link_up<K: SearchKey, P>(
    slots: Seq<Option<Node<K, P>>>,
    root: Option<usize>,
    g: Shape,
    i: usize,
    x: usize,
    key: K,
    payload: P,
    left: bool,
    s: int,
)
    requires
        leaf_fits(slots, root, g, i, x, key, left),
        live(linked(slots, i, x, key, payload, left), s),
    ensures
        up_ok(linked(slots, i, x, key, payload, left), root, s),
{
    let after = linked(slots, i, x, key, payload, left);
    let h = leaf_shape(g, i, x, left);
    let p = leaf_place(g, i, left);
    let o = slots[s]->0;
    assert(node_ok(slots, root, g, i as int));
    assert(h.order.len() == g.order.len() + 1);
    assert(h.order[p] == x);
    lemma_linked_at(slots, i, x, key, payload, left, s);
    lemma_linked_at(slots, i, x, key, payload, left, i as int);
    lemma_linked_at(slots, i, x, key, payload, left, x as int);
    if s != x as int {
        assert(live(slots, s));
        assert(node_ok(slots, root, g, s));
        if s != i as int {
            assert((g.rank)(s) != (g.rank)(i as int));
        }
    }
    if s != x as int {
        match o.parent {
            Some(q) => {
                assert(node_ok(slots, root, g, q as int));
                lemma_linked_at(slots, i, x, key, payload, left, q as int);
            },
            None => {},
        }
    }
}

/// After the leaf was hung, each live node is linked as the layout says.
proof fn lemma_link_node<K: SearchKey, P>(
    slots: Seq<Option<Node<K, P>>>,
    root: Option<usize>,
    g: Shape,
    i: usize,
    x: usize,
    key: K,
    payload: P,
    left: bool,
    s: int,
)
    requires
        leaf_fits(slots, root, g, i, x, key, left),
        live(linked(slots, i, x, key, payload, left), s),
    ensures
        down_ok(linked(slots, i, x, key, payload, left), leaf_shape(g, i, x, left), s),
        up_ok(linked(slots, i, x, key, payload, left), root, s),
{
    lemma_link_span(slots, root, g, i, x, key, payload, left, s);
    lemma_link_left(slots, root, g, i, x, key, payload, left, s);
    lemma_link_right(slots, root, g, i, x, key, payload, left, s);
    lemma_link_up(slots, root, g, i, x, key, payload, left, s);
}

/// After the leaf was hung, keys still ascend along the order.
proof fn lemma_link_ascends<K: SearchKey, P>(
    slots: Seq<Option<Node<K, P>>>,
    root: Option<usize>,
    g: Shape,
    i: usize,
    x: usize,
    key: K,
    payload: P,
    left: bool,
    a: int,
    b: int,
)
    requires
        leaf_fits(slots, root, g, i, x, key, left),
        0 <= a < b <= g.order.len(),
    ensures
        ascends(linked(slots, i, x, key, payload, left), leaf_shape(g, i, x, left), a, b),
{
    let after = linked(slots, i, x, key, payload, left);
    let h = leaf_shape(g, i, x, left);
    let p = leaf_place(g, i, left);
    lemma_link_order(slots, root, g, i, x, key, payload, left, a);
    lemma_link_order(slots, root, g, i, x, key, payload, left, b);
    let ka = key_at(after, h, a);
    let kb = key_at(after, h, b);
    let a0 = if a < p { a } else { a - 1 };
    let b0 = if b < p { b } else { b - 1 };
    let ri = (g.rank)(i as int);
    let ki = (slots[i as int]->0).content.key;
    assert(node_ok(slots, root, g, i as int));
    assert(ki == key_at(slots, g, ri));
    if a == p {
        assert(ka == key);
        assert(kb == key_at(slots, g, b0));
        if b0 >= (g.hi)(i as int) {
        } else if b0 == ri {
        } else {
            assert(ascends(slots, g, ri, b0));
            K::precedes_transitive(&key, &ki, &kb);
        }
    } else if b == p {
        assert(kb == key);
        assert(ka == key_at(slots, g, a0));
        if a0 < (g.lo)(i as int) {
        } else if a0 == ri {
        } else {
            assert(ascends(slots, g, a0, ri));
            K::precedes_transitive(&ka, &ki, &key);
        }
    } else {
        assert(ka == key_at(slots, g, a0));
        assert(kb == key_at(slots, g, b0));
        assert(ascends(slots, g, a0, b0));
    }
}

/// Hanging a new leaf under a node that has no child on that side keeps the
/// tree a search tree, and puts the new entry at the leaf's place among the
/// entries.
pub proof fn lemma_link_leaf<K: SearchKey, P>(
    slots: Seq<Option<Node<K, P>>>,
    root: Option<usize>,
    g: Shape,
    i: usize,
    x: usize,
    key: K,
    payload: P,
    left: bool,
)
    requires
        leaf_fits(slots, root, g, i, x, key, left),
    ensures
        shape_ok(linked(slots, i, x, key, payload, left), root, leaf_shape(g, i, x, left)),
        0 <= leaf_place(g, i, left) <= g.order.len(),
        entries(linked(slots, i, x, key, payload, left), leaf_shape(g, i, x, left)) == entries(
            slots,
            g,
        ).insert(leaf_place(g, i, left), Content { key: key, payload: payload }),
{
    let p = leaf_place(g, i, left);
    let after = linked(slots, i, x, key, payload, left);
    let h = leaf_shape(g, i, x, left);
    lemma_link_order(slots, root, g, i, x, key, payload, left, 0);
    assert(h.order.len() == g.order.len() + 1);
    assert forall|k: int| 0 <= k < h.order.len() implies live(after, #[trigger] h.order[k]) && (h.rank)(
        h.order[k],
    ) == k by {
        lemma_link_order(slots, root, g, i, x, key, payload, left, k);
    }
    assert forall|s: int| #[trigger] node_ok(after, root, h, s) by {
        if live(after, s) {
            lemma_link_node(slots, root, g, i, x, key, payload, left, s);
        }
    }
    assert forall|a: int, b: int| 0 <= a < b < h.order.len() implies #[trigger] ascends(after, h, a, b) by {
        lemma_link_ascends(slots, root, g, i, x, key, payload, left, a, b);
    }
    match root {
        Some(r) => {
            assert(node_ok(slots, root, g, i as int));
            assert(live(slots, r as int));
            assert(r != x);
            lemma_linked_at(slots, i, x, key, payload, left, r as int);
            assert(live(after, r as int));
            assert((after[r as int]->0).parent.is_none());
            assert((h.lo)(r as int) == 0);
            assert((h.hi)(r as int) == h.order.len());
        },
        None => {
            assert(node_ok(slots, root, g, i as int));
        },
    }
    let want = entries(slots, g).insert(p, Content { key: key, payload: payload });
    assert forall|k: int| 0 <= k < h.order.len() implies #[trigger] entries(after, h)[k] == want[k] by {
        lemma_link_order(slots, root, g, i, x, key, payload, left, k);
    }
    assert(entries(after, h) =~= want);
}

/// The layout of a tree of one node at slot `x`.
pub open spec fn single(x: int) -> Shape {
    Shape { order: seq![x], rank: |s: int| 0int, lo: |s: int| 0int, hi: |s: int| 1int }
}

/// Storing the first node makes a search tree of one entry.
pub proof fn lemma_first_leaf<K: SearchKey, P>(
    slots: Seq<Option<Node<K, P>>>,
    g: Shape,
    x: usize,
    key: K,
    payload: P,
)
    requires
        shape_ok(slots, None, g),
        !live(slots, x as int),
        x <= slots.len(),
    ensures
        shape_ok(grown(slots, x as int, leaf(key, payload, None)), Some(x), single(x as int)),
        entries(grown(slots, x as int, leaf(key, payload, None)), single(x as int)) == entries(
            slots,
            g,
        ).insert(0, Content { key: key, payload: payload }),
        g.order.len() == 0,
{
    let after = grown(slots, x as int, leaf(key, payload, None));
    let h = single(x as int);
    assert forall|s: int| #[trigger] node_ok(after, Some(x), h, s) by {
        if live(after, s) && s != x as int {
            assert(node_ok(slots, None, g, s));
        }
    }
    assert(entries(after, h) =~= entries(slots, g).insert(0, Content { key: key, payload: payload }));
}

/// After a leaf was hung, the node at the leaf's place has no children, the
/// node that the leaf hangs under names the leaf's place on that side, and
/// every other link leads to the node that it led to before. The leaf hangs
/// to the left of the next entry exactly when that entry had no left child.
pub proof fn lemma_link_places<K: SearchKey, P>(
    slots: Seq<Option<Node<K, P>>>,
    root: Option<usize>,
    g: Shape,
    i: usize,
    x: usize,
    key: K,
    payload: P,
    left: bool,
    j: int,
)
    requires
        leaf_fits(slots, root, g, i, x, key, left),
        0 <= j <= g.order.len(),
    ensures
        ({
            let p = leaf_place(g, i, left);
            let after = linked(slots, i, x, key, payload, left);
            let h = leaf_shape(g, i, x, left);
            let k = lowered(j, p);
            &&& left == (p < g.order.len() && left_place_of(slots, g, p).is_none())
            &&& !left ==> p > 0 && right_place_of(slots, g, p - 1).is_none()
            &&& left_place_of(after, h, j) == (if j == p {
                None
            } else if left && j == p + 1 {
                Some(p)
            } else {
                raised_link(left_place_of(slots, g, k), p)
            })
            &&& right_place_of(after, h, j) == (if j == p {
                None
            } else if !left && j == p - 1 {
                Some(p)
            } else {
                raised_link(right_place_of(slots, g, k), p)
            })
        }),
{
    let p = leaf_place(g, i, left);
    let h = leaf_shape(g, i, x, left);
    let s = h.order[j];
    assert(node_ok(slots, root, g, i as int));
    if !left && p < g.order.len() {
        lemma_follower_has_left(slots, root, g, i as int);
    }
    lemma_link_order(slots, root, g, i, x, key, payload, left, j);
    lemma_linked_at(slots, i, x, key, payload, left, s);
    if j != p {
        assert(node_ok(slots, root, g, s));
        match (slots[s]->0).left_child {
            Some(c) => {
                assert(node_ok(slots, root, g, c as int));
            },
            None => {},
        }
        match (slots[s]->0).right_child {
            Some(c) => {
                assert(node_ok(slots, root, g, c as int));
            },
            None => {},
        }
    }
}

} // verus!
