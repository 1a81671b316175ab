//! The strict order that keys of the tree are compared by.

use vstd::prelude::*;

verus! {

/// A key type with a strict "comes before" relation that ranks the keys: it
/// is irreflexive and transitive, and keys of which neither comes before
/// the other hold the same rank. Two such keys are the same entry of a tree.
pub trait SearchKey: Sized {
    /// Whether `self` comes strictly before `other`.
    spec fn precedes(&self, other: &Self) -> bool;

    /// Nothing comes before itself.
    proof fn precedes_irreflexive(a: &Self)
        ensures
            !a.precedes(a),
    ;

    /// The relation is transitive.
    proof fn precedes_transitive(a: &Self, b: &Self, c: &Self)
        requires
            a.precedes(b),
            b.precedes(c),
        ensures
            a.precedes(c),
    ;

    /// Whatever key is taken, it comes after the first of two ascending keys
    /// or before the second: keys that neither precede the other stand at
    /// the same place of the order.
    proof fn precedes_splits(a: &Self, b: &Self, c: &Self)
        requires
            a.precedes(b),
        ensures
            a.precedes(c) || c.precedes(b),
    ;

    /// Decides the relation.
    fn is_before(&self, other: &Self) -> (before: bool)
        ensures
            before == self.precedes(other),
    ;
}

/// Neither key comes before the other.
pub open spec fn same_key<K: SearchKey>(a: &K, b: &K) -> bool {
    !a.precedes(b) && !b.precedes(a)
}

/// A value that a tree with keys of type `K` can be searched by: it is
/// compared with keys directly, so that a search needs no key built from it.
/// Its place among the keys agrees with their order.
pub trait Probe<K: SearchKey> {
    /// Whether this value comes strictly before `key`.
    spec fn before(&self, key: &K) -> bool;

    /// Whether `key` comes strictly before this value.
    spec fn after(&self, key: &K) -> bool;

    /// A value before a key is before every later key.
    proof fn before_extends(&self, a: &K, b: &K)
        requires
            self.before(a),
            a.precedes(b),
        ensures
            self.before(b),
    ;

    /// A value after a key is after every earlier key.
    proof fn after_extends(&self, a: &K, b: &K)
        requires
            a.precedes(b),
            self.after(b),
        ensures
            self.after(a),
    ;

    /// A value that meets a key is before every later key.
    proof fn meets_then_before(&self, a: &K, b: &K)
        requires
            !self.before(a),
            !self.after(a),
            a.precedes(b),
        ensures
            self.before(b),
    ;

    /// A value that meets a key is after every earlier key.
    proof fn meets_then_after(&self, a: &K, b: &K)
        requires
            !self.before(b),
            !self.after(b),
            a.precedes(b),
        ensures
            self.after(a),
    ;

    /// Decides `before`.
    fn comes_before(&self, key: &K) -> (yes: bool)
        ensures
            yes == self.before(key),
    ;

    /// Decides `after`.
    fn comes_after(&self, key: &K) -> (yes: bool)
        ensures
            yes == self.after(key),
    ;
}

/// The value is neither before nor after the key: a search by it ends there.
pub open spec fn meets<K: SearchKey, Q: Probe<K> + ?Sized>(probe: &Q, key: &K) -> bool {
    !probe.before(key) && !probe.after(key)
}

/// Every key is a probe for keys of its own type.
impl<K: SearchKey> Probe<K> for K {
    open spec fn before(&self, key: &K) -> bool {
        self.precedes(key)
    }

    open spec fn after(&self, key: &K) -> bool {
        key.precedes(self)
    }

    proof fn before_extends(&self, a: &K, b: &K) {
        K::precedes_transitive(self, a, b);
    }

    proof fn after_extends(&self, a: &K, b: &K) {
        K::precedes_transitive(a, b, self);
    }

    proof fn meets_then_before(&self, a: &K, b: &K) {
        K::precedes_splits(a, b, self);
    }

    proof fn meets_then_after(&self, a: &K, b: &K) {
        K::precedes_splits(a, b, self);
    }

    fn comes_before(&self, key: &K) -> (yes: bool) {
        self.is_before(key)
    }

    fn comes_after(&self, key: &K) -> (yes: bool) {
        key.is_before(self)
    }
}

impl SearchKey for u32 {
    open spec fn precedes(&self, other: &Self) -> bool {
        *self < *other
    }

    proof fn precedes_irreflexive(a: &Self) {
    }

    proof fn precedes_transitive(a: &Self, b: &Self, c: &Self) {
    }

    proof fn precedes_splits(a: &Self, b: &Self, c: &Self) {
    }

    fn is_before(&self, other: &Self) -> (before: bool) {
        *self < *other
    }
}

impl SearchKey for u64 {
    open spec fn precedes(&self, other: &Self) -> bool {
        *self < *other
    }

    proof fn precedes_irreflexive(a: &Self) {
    }

    proof fn precedes_transitive(a: &Self, b: &Self, c: &Self) {
    }

    proof fn precedes_splits(a: &Self, b: &Self, c: &Self) {
    }

    fn is_before(&self, other: &Self) -> (before: bool) {
        *self < *other
    }
}

impl SearchKey for i32 {
    open spec fn precedes(&self, other: &Self) -> bool {
        *self < *other
    }

    proof fn precedes_irreflexive(a: &Self) {
    }

    proof fn precedes_transitive(a: &Self, b: &Self, c: &Self) {
    }

    proof fn precedes_splits(a: &Self, b: &Self, c: &Self) {
    }

    fn is_before(&self, other: &Self) -> (before: bool) {
        *self < *other
    }
}

impl SearchKey for i64 {
    open spec fn precedes(&self, other: &Self) -> bool {
        *self < *other
    }

    proof fn precedes_irreflexive(a: &Self) {
    }

    proof fn precedes_transitive(a: &Self, b: &Self, c: &Self) {
    }

    proof fn precedes_splits(a: &Self, b: &Self, c: &Self) {
    }

    fn is_before(&self, other: &Self) -> (before: bool) {
        *self < *other
    }
}

impl SearchKey for u8 {
    open spec fn precedes(&self, other: &Self) -> bool {
        *self < *other
    }

    proof fn precedes_irreflexive(a: &Self) {
    }

    proof fn precedes_transitive(a: &Self, b: &Self, c: &Self) {
    }

    proof fn precedes_splits(a: &Self, b: &Self, c: &Self) {
    }

    fn is_before(&self, other: &Self) -> (before: bool) {
        *self < *other
    }
}

impl SearchKey for u16 {
    open spec fn precedes(&self, other: &Self) -> bool {
        *self < *other
    }

    proof fn precedes_irreflexive(a: &Self) {
    }

    proof fn precedes_transitive(a: &Self, b: &Self, c: &Self) {
    }

    proof fn precedes_splits(a: &Self, b: &Self, c: &Self) {
    }

    fn is_before(&self, other: &Self) -> (before: bool) {
        *self < *other
    }
}

impl SearchKey for usize {
    open spec fn precedes(&self, other: &Self) -> bool {
        *self < *other
    }

    proof fn precedes_irreflexive(a: &Self) {
    }

    proof fn precedes_transitive(a: &Self, b: &Self, c: &Self) {
    }

    proof fn precedes_splits(a: &Self, b: &Self, c: &Self) {
    }

    fn is_before(&self, other: &Self) -> (before: bool) {
        *self < *other
    }
}

impl SearchKey for i8 {
    open spec fn precedes(&self, other: &Self) -> bool {
        *self < *other
    }

    proof fn precedes_irreflexive(a: &Self) {
    }

    proof fn precedes_transitive(a: &Self, b: &Self, c: &Self) {
    }

    proof fn precedes_splits(a: &Self, b: &Self, c: &Self) {
    }

    fn is_before(&self, other: &Self) -> (before: bool) {
        *self < *other
    }
}

impl SearchKey for i16 {
    open spec fn precedes(&self, other: &Self) -> bool {
        *self < *other
    }

    proof fn precedes_irreflexive(a: &Self) {
    }

    proof fn precedes_transitive(a: &Self, b: &Self, c: &Self) {
    }

    proof fn precedes_splits(a: &Self, b: &Self, c: &Self) {
    }

    fn is_before(&self, other: &Self) -> (before: bool) {
        *self < *other
    }
}

impl SearchKey for isize {
    open spec fn precedes(&self, other: &Self) -> bool {
        *self < *other
    }

    proof fn precedes_irreflexive(a: &Self) {
    }

    proof fn precedes_transitive(a: &Self, b: &Self, c: &Self) {
    }

    proof fn precedes_splits(a: &Self, b: &Self, c: &Self) {
    }

    fn is_before(&self, other: &Self) -> (before: bool) {
        *self < *other
    }
}

/// Lexicographic order of two texts by the code points of their characters:
/// a proper prefix comes before the longer text.
pub open spec fn text_before(a: Seq<char>, b: Seq<char>) -> bool
    decreases a.len(),
{
    if b.len() == 0 {
        false
    } else if a.len() == 0 {
        true
    } else if (a[0] as u32) < (b[0] as u32) {
        true
    } else if (a[0] as u32) == (b[0] as u32) {
        text_before(a.skip(1), b.skip(1))
    } else {
        false
    }
}

/// No text comes before itself.
pub proof fn lemma_text_before_irreflexive(a: Seq<char>)
    ensures
        !text_before(a, a),
    decreases a.len(),
{
    if a.len() > 0 {
        lemma_text_before_irreflexive(a.skip(1));
    }
}

/// The lexicographic order is transitive.
pub proof fn lemma_text_before_transitive(a: Seq<char>, b: Seq<char>, c: Seq<char>)
    requires
        text_before(a, b),
        text_before(b, c),
    ensures
        text_before(a, c),
    decreases a.len(),
{
    if a.len() > 0 && (a[0] as u32) == (b[0] as u32) && (b[0] as u32) == (c[0] as u32) {
        lemma_text_before_transitive(a.skip(1), b.skip(1), c.skip(1));
    }
}

/// Any text comes after the first of two ascending texts or before the
/// second.
pub proof fn lemma_text_before_splits(a: Seq<char>, b: Seq<char>, c: Seq<char>)
    requires
        text_before(a, b),
    ensures
        text_before(a, c) || text_before(c, b),
    decreases a.len(),
{
    if a.len() > 0 && c.len() > 0 && (a[0] as u32) == (b[0] as u32) && (b[0] as u32) == (c[0] as u32) {
        lemma_text_before_splits(a.skip(1), b.skip(1), c.skip(1));
    }
}

/// `str`'s own `<` (`PartialOrd::lt`), which std documents as the
/// lexicographic order of the byte values, the same as the order of the
/// code points; the contract states it over the two texts' characters.
#[verifier::external_body]
fn str_before(a: &str, b: &str) -> (before: bool)
    ensures
        before == text_before(a@, b@),
{
    a < b
}

impl SearchKey for String {
    open spec fn precedes(&self, other: &Self) -> bool {
        text_before(self@, other@)
    }

    proof fn precedes_irreflexive(a: &Self) {
        lemma_text_before_irreflexive(a@);
    }

    proof fn precedes_transitive(a: &Self, b: &Self, c: &Self) {
        lemma_text_before_transitive(a@, b@, c@);
    }

    proof fn precedes_splits(a: &Self, b: &Self, c: &Self) {
        lemma_text_before_splits(a@, b@, c@);
    }

    fn is_before(&self, other: &Self) -> (before: bool) {
        str_before(self.as_str(), other.as_str())
    }
}

/// A text slice searches a tree of `String` keys by the same order.
impl Probe<String> for str {
    open spec fn before(&self, key: &String) -> bool {
        text_before(self@, key@)
    }

    open spec fn after(&self, key: &String) -> bool {
        text_before(key@, self@)
    }

    proof fn before_extends(&self, a: &String, b: &String) {
        lemma_text_before_transitive(self@, a@, b@);
    }

    proof fn after_extends(&self, a: &String, b: &String) {
        lemma_text_before_transitive(a@, b@, self@);
    }

    proof fn meets_then_before(&self, a: &String, b: &String) {
        lemma_text_before_splits(a@, b@, self@);
    }

    proof fn meets_then_after(&self, a: &String, b: &String) {
        lemma_text_before_splits(a@, b@, self@);
    }

    fn comes_before(&self, key: &String) -> (yes: bool) {
        str_before(self, key.as_str())
    }

    fn comes_after(&self, key: &String) -> (yes: bool) {
        str_before(key.as_str(), self)
    }
}

} // verus!
