//! A growable pool of optional slots with a stack of vacant indices for reuse.

use vstd::prelude::*;

verus! {

/// A pool of slots addressed by index. A slot is either occupied by one value
/// or vacant; vacant indices are kept on a stack and handed out again, most
/// recently vacated first, before the pool grows.
pub struct Arena<Node> {
    nodes: Vec<Option<Node>>,
    available: Vec<usize>,
}

impl<Node> Arena<Node> {
    /// The slots, in index order.
    pub closed spec fn slots(&self) -> Seq<Option<Node>> {
        self.nodes@
    }

    /// The stack of vacant indices; its last entry is handed out next.
    pub closed spec fn vacant(&self) -> Seq<usize> {
        self.available@
    }

    /// Whether slot `index` exists and holds a value.
    pub open spec fn occupied(&self, index: int) -> bool {
        0 <= index < self.slots().len() && self.slots()[index].is_some()
    }

    /// The vacant stack lists exactly the empty slots, each once.
    pub open spec fn wf(&self) -> bool {
        &&& forall|i: int|
            0 <= i < self.vacant().len() ==> {
                &&& (#[trigger] self.vacant()[i]) < self.slots().len()
                &&& self.slots()[self.vacant()[i] as int].is_none()
            }
        &&& forall|i: int, j: int|
            0 <= i < j < self.vacant().len() ==> self.vacant()[i] != self.vacant()[j]
        &&& forall|s: int|
            0 <= s < self.slots().len() && (#[trigger] self.slots()[s]).is_none()
                ==> self.listed(s)
    }

    /// Whether `index` is on the vacant stack.
    pub open spec fn listed(&self, index: int) -> bool {
        exists|k: int| 0 <= k < self.vacant().len() && (#[trigger] self.vacant()[k]) as int == index
    }

    /// An arena with no slots.
    pub fn new() -> (arena: Arena<Node>)
        ensures
            arena.slots() == Seq::<Option<Node>>::empty(),
            arena.vacant() == Seq::<usize>::empty(),
            arena.wf(),
    {
        Arena { nodes: Vec::new(), available: Vec::new() }
    }

    /// The number of slots, occupied or not.
    pub fn slot_count(&self) -> (count: usize)
        ensures
            count == self.slots().len(),
    {
        self.nodes.len()
    }

    /// Stores `new_node` in the most recently vacated slot, or in a fresh slot
    /// at the end when none is vacant, and returns the slot's index.
    pub fn allocate(&mut self, new_node: Node) -> (index: usize)
        requires
            old(self).wf(),
        ensures
            final(self).wf(),
            index as int == next_slot(old(self).slots(), old(self).vacant()),
            final(self).slots() == grown(old(self).slots(), index as int, new_node),
            final(self).vacant() == taken(old(self).vacant()),
            !old(self).occupied(index as int),
    {
        if let Some(index) = self.available.pop() {
            assert(old(self).vacant()[old(self).vacant().len() - 1] == index);
            self.nodes[index] = Some(new_node);
            assert forall|s: int|
                0 <= s < self.slots().len() && (#[trigger] self.slots()[s]).is_none()
                implies self.listed(s) by {
                assert(old(self).slots()[s].is_none());
                assert(old(self).listed(s));
                let k = choose|k: int| 0 <= k < old(self).vacant().len() && (#[trigger] old(self).vacant()[k]) as int == s;
                assert(k != old(self).vacant().len() - 1);
                assert(self.vacant()[k] as int == s);
            }
            return index;
        }
        self.nodes.push(Some(new_node));
        let index: usize = self.nodes.len() - 1;
        assert forall|s: int|
            0 <= s < self.slots().len() && (#[trigger] self.slots()[s]).is_none()
            implies self.listed(s) by {
            assert(old(self).slots()[s].is_none());
            assert(old(self).listed(s));
        }
        index
    }

    /// Empties slot `index` and puts the index on the vacant stack. Returns
    /// `false`, changing nothing, when the slot was already empty.
    pub fn remove(&mut self, index: usize) -> (removed: bool)
        requires
            old(self).wf(),
            index < old(self).slots().len(),
        ensures
            final(self).wf(),
            removed == old(self).occupied(index as int),
            removed ==> {
                &&& final(self).slots() == old(self).slots().update(index as int, None)
                &&& final(self).vacant() == old(self).vacant().push(index)
            },
            !removed ==> {
                &&& final(self).slots() == old(self).slots()
                &&& final(self).vacant() == old(self).vacant()
            },
    {
        if self.nodes[index].is_some() {
            self.nodes[index] = None;
            self.available.push(index);
            assert forall|s: int|
                0 <= s < self.slots().len() && (#[trigger] self.slots()[s]).is_none()
                implies self.listed(s) by {
                if s == index {
                    assert(self.vacant()[self.vacant().len() - 1] as int == s);
                } else {
                    assert(old(self).slots()[s].is_none());
                    assert(old(self).listed(s));
                let k = choose|k: int| 0 <= k < old(self).vacant().len() && (#[trigger] old(self).vacant()[k]) as int == s;
                    assert(self.vacant()[k] as int == s);
                }
            }
            return true;
        }
        false
    }

    /// Read access to the value in an occupied slot.
    pub fn view(&self, index: usize) -> (node: &Node)
        requires
            self.occupied(index as int),
        ensures
            Some(*node) == self.slots()[index as int],
    {
        match &self.nodes[index] {
            Some(node) => node,
            None => vstd::pervasive::unreached(),
        }
    }

    /// Write access to the value in an occupied slot. Nothing else changes.
    pub fn modify(&mut self, index: usize) -> (node: &mut Node)
        requires
            old(self).occupied(index as int),
        ensures
            Some(*node) == old(self).slots()[index as int],
            final(self).slots() == old(self).slots().update(index as int, Some(*final(node))),
            final(self).vacant() == old(self).vacant(),
            old(self).wf() ==> final(self).wf(),
    {
        proof {
            let before = *old(self);
            assert forall|after: Arena<Node>|
                after.vacant() == before.vacant() && after.slots().len() == before.slots().len()
                    && after.slots()[index as int].is_some() && (forall|s: int|
                    0 <= s < before.slots().len() && s != index ==> after.slots()[s]
                        == before.slots()[s]) && before.wf() implies #[trigger] after.wf() by {
                assert forall|s: int|
                    0 <= s < after.slots().len() && (#[trigger] after.slots()[s]).is_none()
                    implies after.listed(s) by {
                    assert(before.slots()[s].is_none());
                    assert(before.listed(s));
                    let k = choose|k: int|
                        0 <= k < before.vacant().len() && (#[trigger] before.vacant()[k]) as int == s;
                    assert(after.vacant()[k] as int == s);
                }
            }
        }
        match &mut self.nodes[index] {
            Some(node) => node,
            None => vstd::pervasive::unreached(),
        }
    }
}

/// The slot that the next allocation fills: the top of the vacant stack, or
/// a new slot at the end.
pub open spec fn next_slot<T>(slots: Seq<Option<T>>, vacant: Seq<usize>) -> int {
    if vacant.len() > 0 {
        vacant.last() as int
    } else {
        slots.len() as int
    }
}

/// The slots with `node` stored at `index`, which is a slot of `slots` or
/// the one past its end.
pub open spec fn grown<T>(slots: Seq<Option<T>>, index: int, node: T) -> Seq<Option<T>> {
    if index < slots.len() {
        slots.update(index, Some(node))
    } else {
        slots.push(Some(node))
    }
}

/// The vacant stack after an allocation: without its top, if it had one.
pub open spec fn taken(vacant: Seq<usize>) -> Seq<usize> {
    if vacant.len() > 0 {
        vacant.drop_last()
    } else {
        vacant
    }
}

/// An allocation that follows the freeing of a slot fills that very slot:
/// no slot is appended, and the vacant stack is as it was before the two.
pub proof fn lemma_freed_slot_is_reused<T>(
    slots: Seq<Option<T>>,
    vacant: Seq<usize>,
    index: usize,
    node: T,
)
    requires
        index < slots.len(),
    ensures
        next_slot(slots.update(index as int, None), vacant.push(index)) == index,
        grown(slots.update(index as int, None), index as int, node) == slots.update(
            index as int,
            Some(node),
        ),
        taken(vacant.push(index)) == vacant,
{
    assert(vacant.push(index).drop_last() =~= vacant);
    assert(slots.update(index as int, None).update(index as int, Some(node)) =~= slots.update(
        index as int,
        Some(node),
    ));
}

} // verus!
