//! Restyle hints: what has to be restyled about an element and below it.

use vstd::prelude::*;

verus! {

/// A restyle hint as selector invalidation computes it.
#[derive(Clone, Copy, Debug, PartialEq, Eq, Structural)]
pub struct RestyleHint {
    /// The element itself has to be restyled.
    pub restyle_self: bool,
    /// All descendants of the element have to be restyled.
    pub restyle_descendants: bool,
    /// The later siblings of the element have to be restyled, with their descendants.
    pub restyle_later_siblings: bool,
    /// The cascade levels whose rules have to be replaced, one bit for each.
    pub replacements: u8,
}

/// A restyle hint as it is stored on an element. It says nothing of siblings: a
/// hint for later siblings is handed to them before anything is stored.
#[derive(Clone, Copy, Debug, PartialEq, Eq, Structural)]
pub struct StoredRestyleHint {
    /// The element itself has to be restyled.
    pub restyle_self: bool,
    /// All descendants of the element have to be restyled.
    pub restyle_descendants: bool,
    /// The cascade levels whose rules have to be replaced, one bit for each.
    pub replacements: u8,
}

impl RestyleHint {
    /// The part of the hint that concerns the element and its descendants.
    pub open spec fn stored(self) -> StoredRestyleHint {
        StoredRestyleHint {
            restyle_self: self.restyle_self,
            restyle_descendants: self.restyle_descendants,
            replacements: self.replacements,
        }
    }

    /// Drops the mark for later siblings.
    pub fn to_stored(self) -> (stored: StoredRestyleHint)
        ensures
            stored == self.stored(),
    {
        StoredRestyleHint {
            restyle_self: self.restyle_self,
            restyle_descendants: self.restyle_descendants,
            replacements: self.replacements,
        }
    }
}

impl StoredRestyleHint {
    /// The hint that asks for nothing.
    pub open spec fn none() -> StoredRestyleHint {
        StoredRestyleHint { restyle_self: false, restyle_descendants: false, replacements: 0 }
    }

    /// The hint to restyle an element with everything below it.
    pub open spec fn whole_subtree() -> StoredRestyleHint {
        StoredRestyleHint { restyle_self: true, restyle_descendants: true, replacements: 0 }
    }

    /// The hint that asks for what either of the two asks for.
    pub open spec fn union(self, other: StoredRestyleHint) -> StoredRestyleHint {
        StoredRestyleHint {
            restyle_self: self.restyle_self || other.restyle_self,
            restyle_descendants: self.restyle_descendants || other.restyle_descendants,
            replacements: self.replacements | other.replacements,
        }
    }

    /// Whether the hint asks for all that `other` asks for.
    pub open spec fn covers(self, other: StoredRestyleHint) -> bool {
        self.union(other) == self
    }

    /// What the hint asks of each child of the element that carries it.
    pub open spec fn for_children(self) -> StoredRestyleHint {
        if self.restyle_descendants {
            StoredRestyleHint::whole_subtree()
        } else {
            StoredRestyleHint::none()
        }
    }

    /// Whether the hint asks for work on the element itself.
    pub open spec fn concerns_self(self) -> bool {
        self.restyle_self || self.replacements != 0
    }

    /// The hint that asks for nothing.
    pub fn empty() -> (hint: StoredRestyleHint)
        ensures
            hint == StoredRestyleHint::none(),
    {
        StoredRestyleHint { restyle_self: false, restyle_descendants: false, replacements: 0 }
    }

    /// The hint to restyle an element with everything below it.
    pub fn self_and_descendants() -> (hint: StoredRestyleHint)
        ensures
            hint == StoredRestyleHint::whole_subtree(),
    {
        StoredRestyleHint { restyle_self: true, restyle_descendants: true, replacements: 0 }
    }

    /// Whether the hint asks for nothing.
    pub fn is_empty(&self) -> (empty: bool)
        ensures
            empty == (*self == StoredRestyleHint::none()),
    {
        !self.restyle_self && !self.restyle_descendants && self.replacements == 0
    }

    /// Whether the hint asks for work on the element itself.
    pub fn affects_self(&self) -> (affects: bool)
        ensures
            affects == self.concerns_self(),
    {
        self.restyle_self || self.replacements != 0
    }

    /// Adds what `other` asks for.
    pub fn insert(&mut self, other: &StoredRestyleHint)
        ensures
            *final(self) == old(self).union(*other),
    {
        self.restyle_self = self.restyle_self || other.restyle_self;
        self.restyle_descendants = self.restyle_descendants || other.restyle_descendants;
        self.replacements = self.replacements | other.replacements;
    }

    /// The hint to hand to each child of the element that carries this one.
    pub fn propagate(self) -> (hint: StoredRestyleHint)
        ensures
            hint == self.for_children(),
    {
        if self.restyle_descendants {
            StoredRestyleHint::self_and_descendants()
        } else {
            StoredRestyleHint::empty()
        }
    }

    /// The union of hints is idempotent and has the empty hint as its unit.
    pub proof fn lemma_union_unit(self)
        ensures
            self.union(self) == self,
            self.union(StoredRestyleHint::none()) == self,
            StoredRestyleHint::none().union(self) == self,
    {
        let a = self.replacements;
        assert(a | a == a && a | 0u8 == a && 0u8 | a == a) by (bit_vector);
    }

    /// A union covers both of its parts, and whatever these cover.
    pub proof fn lemma_union_covers(self, other: StoredRestyleHint, part: StoredRestyleHint)
        ensures
            self.union(other).covers(self),
            self.union(other).covers(other),
            self.covers(part) ==> self.union(other).covers(part),
            other.covers(part) ==> self.union(other).covers(part),
    {
        let (a, b, c) = (self.replacements, other.replacements, part.replacements);
        assert((a | b) | a == a | b && (a | b) | b == a | b) by (bit_vector);
        assert(a | c == a ==> (a | b) | c == a | b) by (bit_vector);
        assert(b | c == b ==> (a | b) | c == a | b) by (bit_vector);
    }
}

} // verus!
