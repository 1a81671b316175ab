//! What makes the nodes in an arena one search tree: every node has a place
//! in the key order, and the subtree under it fills a span of places.

use vstd::prelude::*;
use crate::keys::Probe;
use crate::keys::SearchKey;
use crate::keys::meets;
use crate::keys::same_key;
use crate::node::Content;
use crate::node::Node;
use crate::node::TraverseTowards;
use crate::node::step_towards;

verus! {

/// The layout of a tree as a traversal sees it. `order` lists the occupied
/// slots in ascending key order, `rank` gives a slot's place in it, and the
/// subtree under a slot fills the places from `lo` up to, not including, `hi`.
pub struct Shape {
    pub order: Seq<int>,
    pub rank: spec_fn(int) -> int,
    pub lo: spec_fn(int) -> int,
    pub hi: spec_fn(int) -> int,
}

/// Slot `s` exists and holds a node.
pub open spec fn live<K, P>(slots: Seq<Option<Node<K, P>>>, s: int) -> bool {
    0 <= s < slots.len() && slots[s].is_some()
}

/// The link `o` leads to slot `s`.
pub open spec fn leads_to(o: Option<usize>, s: int) -> bool {
    match o {
        Some(c) => c as int == s,
        None => false,
    }
}

/// The span of `s` lies inside the span of `top`.
pub open spec fn within(g: Shape, top: int, s: int) -> bool {
    (g.lo)(top) <= (g.lo)(s) && (g.hi)(s) <= (g.hi)(top)
}

/// Node `s` sits at its place of the order, inside its own span.
pub open spec fn span_ok(g: Shape, s: int) -> bool {
    &&& 0 <= (g.lo)(s) <= (g.rank)(s) < (g.hi)(s) <= g.order.len()
    &&& g.order[(g.rank)(s)] == s
}

/// The left child that `s` names is a live node that names `s` as its parent
/// and fills the span of `s` before its place; a node without one begins
/// its span itself.
pub open spec fn left_ok<K, P>(slots: Seq<Option<Node<K, P>>>, g: Shape, s: int) -> bool {
    match (slots[s]->0).left_child {
        Some(l) => {
            &&& live(slots, l as int)
            &&& leads_to((slots[l as int]->0).parent, s)
            &&& (g.lo)(l as int) == (g.lo)(s)
            &&& (g.hi)(l as int) == (g.rank)(s)
        },
        None => (g.lo)(s) == (g.rank)(s),
    }
}

/// The same for the right child and the span of `s` after its place.
pub open spec fn right_ok<K, P>(slots: Seq<Option<Node<K, P>>>, g: Shape, s: int) -> bool {
    match (slots[s]->0).right_child {
        Some(r) => {
            &&& live(slots, r as int)
            &&& leads_to((slots[r as int]->0).parent, s)
            &&& (g.lo)(r as int) == (g.rank)(s) + 1
            &&& (g.hi)(r as int) == (g.hi)(s)
        },
        None => (g.hi)(s) == (g.rank)(s) + 1,
    }
}

/// Node `s` sits inside its own span, and each child that it names is a live
/// node that names `s` as its parent and fills the span on its side of `s`.
pub open spec fn down_ok<K, P>(slots: Seq<Option<Node<K, P>>>, g: Shape, s: int) -> bool {
    &&& span_ok(g, s)
    &&& left_ok(slots, g, s)
    &&& right_ok(slots, g, s)
}

/// The parent that node `s` names is live and names `s` as a child; a node
/// without a parent is the root.
pub open spec fn up_ok<K, P>(
    slots: Seq<Option<Node<K, P>>>,
    root: Option<usize>,
    s: int,
) -> bool {
    match (slots[s]->0).parent {
        Some(p) => {
            &&& live(slots, p as int)
            &&& (leads_to((slots[p as int]->0).left_child, s) || leads_to(
                (slots[p as int]->0).right_child,
                s,
            ))
        },
        None => leads_to(root, s),
    }
}

/// Every node in the span of `top`, `top` included, is linked downwards as
/// `down_ok` says.
pub open spec fn subtree_ok<K, P>(slots: Seq<Option<Node<K, P>>>, g: Shape, top: int) -> bool {
    &&& live(slots, top)
    &&& forall|s: int| live(slots, s) && within(g, top, s) ==> #[trigger] down_ok(slots, g, s)
}

/// The key of the node at place `k` of the order.
pub open spec fn key_at<K, P>(slots: Seq<Option<Node<K, P>>>, g: Shape, k: int) -> K {
    (slots[g.order[k]]->0).content.key
}

/// A live node `s` is linked downwards and upwards as the layout says.
pub open spec fn node_ok<K, P>(
    slots: Seq<Option<Node<K, P>>>,
    root: Option<usize>,
    g: Shape,
    s: int,
) -> bool {
    live(slots, s) ==> down_ok(slots, g, s) && up_ok(slots, root, s)
}

/// The key at place `i` comes before the key at place `j`.
pub open spec fn ascends<K: SearchKey, P>(
    slots: Seq<Option<Node<K, P>>>,
    g: Shape,
    i: int,
    j: int,
) -> bool {
    key_at(slots, g, i).precedes(&key_at(slots, g, j))
}

/// The slots, the root and the layout describe one search tree: the order
/// lists exactly the live slots, every node is linked up and down as the
/// layout says, the root spans the whole order, and keys ascend strictly
/// along it.
pub open spec fn shape_ok<K: SearchKey, P>(
    slots: Seq<Option<Node<K, P>>>,
    root: Option<usize>,
    g: Shape,
) -> bool {
    &&& forall|k: int|
        0 <= k < g.order.len() ==> live(slots, #[trigger] g.order[k]) && (g.rank)(g.order[k]) == k
    &&& forall|s: int| #[trigger] node_ok(slots, root, g, s)
    &&& match root {
        Some(r) => {
            &&& live(slots, r as int)
            &&& (slots[r as int]->0).parent.is_none()
            &&& (g.lo)(r as int) == 0
            &&& (g.hi)(r as int) == g.order.len()
        },
        None => g.order.len() == 0,
    }
    &&& forall|i: int, j: int|
        0 <= i < j < g.order.len() ==> #[trigger] ascends(slots, g, i, j)
}

/// The entries of a tree in traversal order.
pub open spec fn entries<K, P>(slots: Seq<Option<Node<K, P>>>, g: Shape) -> Seq<Content<K, P>> {
    Seq::new(g.order.len(), |k: int| (slots[g.order[k]]->0).content)
}

/// A search by `probe` ends at node `i` on the given side: `i` has no child
/// there, `probe` is on that side of the key of `i`, and it lies between
/// the keys before and after the span of `i`.
pub open spec fn gap_at<K: SearchKey, P, Q: Probe<K> + ?Sized>(
    slots: Seq<Option<Node<K, P>>>,
    root: Option<usize>,
    g: Shape,
    i: usize,
    probe: &Q,
    left: bool,
) -> bool {
    &&& shape_ok(slots, root, g)
    &&& live(slots, i as int)
    &&& left ==> (slots[i as int]->0).left_child.is_none() && probe.before(
        &(slots[i as int]->0).content.key,
    )
    &&& !left ==> (slots[i as int]->0).right_child.is_none() && probe.after(
        &(slots[i as int]->0).content.key,
    )
    &&& flanked(slots, g, i as int, probe)
}

/// `probe` is after every key before the span of `i`, and before every key
/// after the span.
pub open spec fn flanked<K: SearchKey, P, Q: Probe<K> + ?Sized>(
    slots: Seq<Option<Node<K, P>>>,
    g: Shape,
    i: int,
    probe: &Q,
) -> bool {
    &&& forall|k: int| 0 <= k < (g.lo)(i) ==> probe.after(&#[trigger] key_at(slots, g, k))
    &&& forall|k: int| (g.hi)(i) <= k < g.order.len() ==> probe.before(&#[trigger] key_at(slots, g, k))
}

/// Some entry has a key that `probe` is neither before nor after.
pub open spec fn holds_key<K: SearchKey, P, Q: Probe<K> + ?Sized>(
    entries: Seq<Content<K, P>>,
    probe: &Q,
) -> bool {
    exists|k: int| 0 <= k < entries.len() && meets(probe, &(#[trigger] entries[k]).key)
}

/// Each entry's key comes strictly before the keys of all later entries.
pub open spec fn ascending<K: SearchKey, P>(entries: Seq<Content<K, P>>) -> bool {
    forall|i: int, j: int|
        #![trigger entries[i], entries[j]]
        0 <= i < j < entries.len() ==> entries[i].key.precedes(&entries[j].key)
}

/// Two entries of an ascending sequence never have the same key.
pub proof fn lemma_ascending_distinct<K: SearchKey, P>(entries: Seq<Content<K, P>>, i: int, j: int)
    requires
        ascending(entries),
        0 <= i < entries.len(),
        0 <= j < entries.len(),
        i != j,
    ensures
        !same_key(&entries[i].key, &entries[j].key),
{
}

/// An ascending sequence without one of its entries is ascending.
pub proof fn lemma_ascending_remove<K: SearchKey, P>(entries: Seq<Content<K, P>>, p: int)
    requires
        ascending(entries),
        0 <= p < entries.len(),
    ensures
        ascending(entries.remove(p)),
        !holds_key(entries.remove(p), &entries[p].key),
{
    let rest = entries.remove(p);
    assert forall|i: int, j: int| 0 <= i < j < rest.len() implies rest[i].key.precedes(&rest[j].key) by {
        let i0 = if i < p { i } else { i + 1 };
        let j0 = if j < p { j } else { j + 1 };
        assert(rest[i] == entries[i0] && rest[j] == entries[j0]);
    }
    assert forall|k: int| 0 <= k < rest.len() implies !meets(&entries[p].key, &(#[trigger] rest[k]).key) by {
        let k0 = if k < p { k } else { k + 1 };
        assert(rest[k] == entries[k0]);
        lemma_ascending_distinct(entries, k0, p);
    }
}

/// Where a new entry goes into an ascending sequence is decided by its key:
/// if the sequence is ascending with the entry at place `p` and also with it
/// at place `q`, then `p` and `q` are the same place.
pub proof fn lemma_insert_place_unique<K: SearchKey, P>(
    entries: Seq<Content<K, P>>,
    entry: Content<K, P>,
    p: int,
    q: int,
)
    requires
        0 <= p <= entries.len(),
        0 <= q <= entries.len(),
        ascending(entries.insert(p, entry)),
        ascending(entries.insert(q, entry)),
    ensures
        p == q,
{
    let a = entries.insert(p, entry);
    let b = entries.insert(q, entry);
    K::precedes_irreflexive(&entry.key);
    if p < q {
        // In `a` the entry stands before the old entry at place `p`; in `b` after it.
        assert(a[p] == entry && a[p + 1] == entries[p]);
        assert(b[p] == entries[p] && b[q] == entry);
        K::precedes_transitive(&entry.key, &entries[p].key, &entry.key);
    } else if q < p {
        assert(b[q] == entry && b[q + 1] == entries[q]);
        assert(a[q] == entries[q] && a[p] == entry);
        K::precedes_transitive(&entry.key, &entries[q].key, &entry.key);
    }
}

/// Once the entry that a probe meets has left an ascending sequence, the
/// probe meets none of the entries that remain.
pub proof fn lemma_removed_is_absent<K: SearchKey, P, Q: Probe<K> + ?Sized>(
    entries: Seq<Content<K, P>>,
    probe: &Q,
    p: int,
)
    requires
        ascending(entries),
        0 <= p < entries.len(),
        meets(probe, &entries[p].key),
    ensures
        !holds_key(entries.remove(p), probe),
{
    let rest = entries.remove(p);
    assert forall|k: int| 0 <= k < rest.len() implies !meets(probe, &(#[trigger] rest[k]).key) by {
        if k < p {
            assert(rest[k] == entries[k]);
            probe.meets_then_after(&entries[k].key, &entries[p].key);
        } else {
            assert(rest[k] == entries[k + 1]);
            probe.meets_then_before(&entries[p].key, &entries[k + 1].key);
        }
    }
}

/// A search that ends beside a node without meeting a key shows that no
/// entry has one that the probe meets.
pub proof fn lemma_gap_absent<K: SearchKey, P, Q: Probe<K> + ?Sized>(
    slots: Seq<Option<Node<K, P>>>,
    root: Option<usize>,
    g: Shape,
    i: usize,
    probe: &Q,
    left: bool,
)
    requires
        gap_at(slots, root, g, i, probe, left),
    ensures
        !holds_key(entries(slots, g), probe),
{
    let ri = (g.rank)(i as int);
    let ki = (slots[i as int]->0).content.key;
    assert(node_ok(slots, root, g, i as int));
    assert(ki == key_at(slots, g, ri));
    assert forall|k: int| 0 <= k < g.order.len() implies !meets(
        probe,
        &(#[trigger] entries(slots, g)[k]).key,
    ) by {
        let kk = key_at(slots, g, k);
        assert(entries(slots, g)[k].key == kk);
        if k < (g.lo)(i as int) {
        } else if k >= (g.hi)(i as int) {
        } else if k < ri {
            assert(ascends(slots, g, k, ri));
            probe.after_extends(&kk, &ki);
        } else if k > ri {
            assert(ascends(slots, g, ri, k));
            probe.before_extends(&ki, &kk);
        }
    }
}

/// Going down one step of a search keeps the probe between the keys on
/// either side of the span, and the span shrinks.
pub proof fn lemma_descend<K: SearchKey, P, Q: Probe<K> + ?Sized>(
    slots: Seq<Option<Node<K, P>>>,
    root: Option<usize>,
    g: Shape,
    i: usize,
    n: usize,
    probe: &Q,
)
    requires
        shape_ok(slots, root, g),
        live(slots, i as int),
        flanked(slots, g, i as int, probe),
        step_towards(slots[i as int]->0, probe) == TraverseTowards::Next(n),
    ensures
        live(slots, n as int),
        flanked(slots, g, n as int, probe),
        0 <= (g.hi)(n as int) - (g.lo)(n as int) < (g.hi)(i as int) - (g.lo)(i as int),
{
    let ri = (g.rank)(i as int);
    let ki = (slots[i as int]->0).content.key;
    assert(node_ok(slots, root, g, i as int));
    assert(node_ok(slots, root, g, n as int));
    assert(ki == key_at(slots, g, ri));
    assert forall|k: int| 0 <= k < (g.lo)(n as int) implies probe.after(
        &#[trigger] key_at(slots, g, k),
    ) by {
        if (g.lo)(i as int) <= k < ri {
            assert(ascends(slots, g, k, ri));
            probe.after_extends(&key_at(slots, g, k), &ki);
        }
    }
    assert forall|k: int| (g.hi)(n as int) <= k < g.order.len() implies probe.before(
        &#[trigger] key_at(slots, g, k),
    ) by {
        if ri < k < (g.hi)(i as int) {
            assert(ascends(slots, g, ri, k));
            probe.before_extends(&ki, &key_at(slots, g, k));
        }
    }
}

/// The place of the node that the link `o` leads to.
pub open spec fn place_of_link(g: Shape, o: Option<usize>) -> Option<int> {
    match o {
        Some(c) => Some((g.rank)(c as int)),
        None => None,
    }
}

/// The place of the left child of the node at place `p`, if it has one.
pub open spec fn left_place_of<K, P>(slots: Seq<Option<Node<K, P>>>, g: Shape, p: int) -> Option<int> {
    if 0 <= p < g.order.len() {
        place_of_link(g, (slots[g.order[p]]->0).left_child)
    } else {
        None
    }
}

/// The place of the right child of the node at place `p`, if it has one.
pub open spec fn right_place_of<K, P>(slots: Seq<Option<Node<K, P>>>, g: Shape, p: int) -> Option<
    int,
> {
    if 0 <= p < g.order.len() {
        place_of_link(g, (slots[g.order[p]]->0).right_child)
    } else {
        None
    }
}

/// Where place `k` moves when an entry is put in at place `p`.
pub open spec fn raised(k: int, p: int) -> int {
    if k < p {
        k
    } else {
        k + 1
    }
}

/// Where place `k` moves when the entry at place `p` leaves.
pub open spec fn lowered(k: int, p: int) -> int {
    if k < p {
        k
    } else {
        k - 1
    }
}

/// A link to a place, moved as `raised` says.
pub open spec fn raised_link(o: Option<int>, p: int) -> Option<int> {
    match o {
        Some(c) => Some(raised(c, p)),
        None => None,
    }
}

/// A link to a place, moved as `lowered` says.
pub open spec fn lowered_link(o: Option<int>, p: int) -> Option<int> {
    match o {
        Some(c) => Some(lowered(c, p)),
        None => None,
    }
}

/// The node that follows a subtree in the order has a left child: the
/// subtree lies under it.
pub proof fn lemma_follower_has_left<K: SearchKey, P>(
    slots: Seq<Option<Node<K, P>>>,
    root: Option<usize>,
    g: Shape,
    at: int,
)
    requires
        shape_ok(slots, root, g),
        live(slots, at),
        (g.hi)(at) < g.order.len(),
    ensures
        left_place_of(slots, g, (g.hi)(at)).is_some(),
    decreases (g.lo)(at),
{
    assert(node_ok(slots, root, g, at));
    match (slots[at]->0).parent {
        Some(q) => {
            assert(node_ok(slots, root, g, q as int));
            if leads_to((slots[q as int]->0).right_child, at) {
                lemma_follower_has_left(slots, root, g, q as int);
            }
        },
        None => {},
    }
}

} // verus!
