//! The style data that is attached to an element.

use vstd::prelude::*;

use crate::restyle_hints::{RestyleHint, StoredRestyleHint};

verus! {

/// The computed styles of an element, as far as a traversal looks at them.
#[derive(Clone, Copy, Debug, PartialEq, Eq, Structural)]
pub struct ElementStyles {
    /// Whether the primary style computed `display: none`.
    pub display_none: bool,
    /// Whether the primary style has an XBL binding.
    pub has_moz_binding: bool,
    /// The key under which the style engine keeps the primary computed values.
    pub values: u64,
}

/// The layout damage that a restyle left behind, one bit for each kind.
#[derive(Clone, Copy, Debug, PartialEq, Eq, Structural)]
pub struct RestyleDamage {
    pub bits: u32,
}

/// What is pending for an element that has been styled before.
#[derive(Clone, Copy, Debug, PartialEq, Eq, Structural)]
pub struct RestyleData {
    /// What to restyle.
    pub hint: StoredRestyleHint,
    /// Whether inherited properties changed, so that the cascade must run again.
    pub recascade: bool,
    /// The damage that layout has still to look at.
    pub damage: RestyleDamage,
    /// The key of the snapshot of the element's former state, until it is expanded
    /// into a hint.
    pub snapshot: Option<u64>,
}

/// The style data of an element.
#[derive(Clone, Copy, Debug, PartialEq, Eq, Structural)]
pub struct ElementData {
    /// The computed styles, once there are any.
    pub styles: Option<ElementStyles>,
    /// What is pending, if anything is.
    pub restyle: Option<RestyleData>,
}

/// How much work it takes to restyle an element.
#[derive(Clone, Copy, Debug, PartialEq, Eq, Structural)]
pub enum RestyleKind {
    /// Selector matching, then the cascade.
    MatchAndCascade,
    /// Some rules are replaced in the current ones, then the cascade.
    CascadeWithReplacements(StoredRestyleHint),
    /// The cascade alone, on the current rules.
    CascadeOnly,
}

impl RestyleDamage {
    /// No damage at all.
    pub open spec fn none() -> RestyleDamage {
        RestyleDamage { bits: 0 }
    }

    /// No damage at all.
    pub fn empty() -> (damage: RestyleDamage)
        ensures
            damage == RestyleDamage::none(),
    {
        RestyleDamage { bits: 0 }
    }
}

impl RestyleData {
    /// Nothing pending.
    pub open spec fn nothing() -> RestyleData {
        RestyleData {
            hint: StoredRestyleHint::none(),
            recascade: false,
            damage: RestyleDamage::none(),
            snapshot: None,
        }
    }

    /// The data with `hint` added to what is to be restyled.
    pub open spec fn hinted(self, hint: StoredRestyleHint) -> RestyleData {
        RestyleData { hint: self.hint.union(hint), ..self }
    }

    /// The data once its snapshot, if there is one, has been expanded into `computed`.
    pub open spec fn expanded(self, computed: RestyleHint) -> RestyleData {
        if self.snapshot is Some {
            RestyleData { snapshot: None, ..self.hinted(computed.stored()) }
        } else {
            self
        }
    }

    /// The data with a cascade asked for, if `recascade` holds.
    pub open spec fn recascaded(self, recascade: bool) -> RestyleData {
        RestyleData { recascade: self.recascade || recascade, ..self }
    }

    /// Nothing pending.
    pub fn new() -> (data: RestyleData)
        ensures
            data == RestyleData::nothing(),
    {
        RestyleData {
            hint: StoredRestyleHint::empty(),
            recascade: false,
            damage: RestyleDamage::empty(),
            snapshot: None,
        }
    }

    /// Expands the snapshot, if there is one, into the hint `computed` that selector
    /// invalidation found for it. Returns whether the later siblings have to be
    /// restyled as well.
    pub fn expand_snapshot(&mut self, computed: RestyleHint) -> (later_siblings: bool)
        ensures
            *final(self) == old(self).expanded(computed),
            later_siblings == (old(self).snapshot is Some && computed.restyle_later_siblings),
    {
        if self.snapshot.is_none() {
            return false;
        }
        self.hint.insert(&computed.to_stored());
        self.snapshot = None;
        computed.restyle_later_siblings
    }
}

impl ElementData {
    /// Data without styles and with nothing pending.
    pub open spec fn blank() -> ElementData {
        ElementData { styles: None, restyle: None }
    }

    /// Whether there are styles and they compute `display: none`.
    pub open spec fn hides(self) -> bool {
        self.styles is Some && self.styles->0.display_none
    }

    /// Whether a snapshot is waiting to be expanded.
    pub open spec fn has_snapshot_spec(self) -> bool {
        self.restyle is Some && self.restyle->0.snapshot is Some
    }

    /// Whether nothing about the element's own styles is missing or out of date.
    pub open spec fn current(self) -> bool {
        &&& self.styles is Some
        &&& self.restyle is Some ==> {
            &&& !self.restyle->0.hint.concerns_self()
            &&& !self.restyle->0.recascade
            &&& self.restyle->0.snapshot is None
        }
    }

    /// The cheapest kind of work that brings the styles up to date.
    pub open spec fn kind(self) -> RestyleKind {
        if self.styles is None || self.restyle is None || self.restyle->0.hint.restyle_self {
            RestyleKind::MatchAndCascade
        } else if self.restyle->0.hint.replacements != 0 {
            RestyleKind::CascadeWithReplacements(self.restyle->0.hint)
        } else {
            RestyleKind::CascadeOnly
        }
    }

    /// The pending work, or nothing.
    pub open spec fn pending(self) -> RestyleData {
        match self.restyle {
            Some(restyle) => restyle,
            None => RestyleData::nothing(),
        }
    }

    /// The data once its styles are up to date: no hint and no cascade is left over.
    pub open spec fn settled(self) -> ElementData {
        match self.restyle {
            Some(restyle) => ElementData {
                restyle: Some(
                    RestyleData { hint: StoredRestyleHint::none(), recascade: false, ..restyle },
                ),
                ..self
            },
            None => self,
        }
    }

    /// The data with the pending work replaced.
    pub open spec fn with_pending(self, restyle: RestyleData) -> ElementData {
        ElementData { restyle: Some(restyle), ..self }
    }

    /// Data without styles and with nothing pending.
    pub fn new() -> (data: ElementData)
        ensures
            data == ElementData::blank(),
    {
        ElementData { styles: None, restyle: None }
    }

    /// Whether there are styles.
    pub fn has_styles(&self) -> (has: bool)
        ensures
            has == self.styles is Some,
    {
        self.styles.is_some()
    }

    /// Whether restyle data exists.
    pub fn has_restyle(&self) -> (has: bool)
        ensures
            has == self.restyle is Some,
    {
        self.restyle.is_some()
    }

    /// Whether a snapshot is waiting to be expanded.
    pub fn has_snapshot(&self) -> (has: bool)
        ensures
            has == self.has_snapshot_spec(),
    {
        match self.restyle {
            Some(restyle) => restyle.snapshot.is_some(),
            None => false,
        }
    }

    /// Whether there are styles and they compute `display: none`.
    pub fn is_display_none(&self) -> (none: bool)
        ensures
            none == self.hides(),
    {
        match self.styles {
            Some(styles) => styles.display_none,
            None => false,
        }
    }

    /// Whether nothing about the element's own styles is missing or out of date. The
    /// descendants may still have to be restyled.
    pub fn has_current_styles(&self) -> (current: bool)
        ensures
            current == self.current(),
    {
        self.has_styles() && match self.restyle {
            Some(restyle) => {
                !restyle.hint.affects_self() && !restyle.recascade && restyle.snapshot.is_none()
            },
            None => true,
        }
    }

    /// The cheapest kind of work that brings the styles up to date.
    pub fn restyle_kind(&self) -> (kind: RestyleKind)
        requires
            !self.current(),
        ensures
            kind == self.kind(),
    {
        match (self.styles, self.restyle) {
            (Some(_), Some(restyle)) => {
                if restyle.hint.restyle_self {
                    RestyleKind::MatchAndCascade
                } else if restyle.hint.replacements != 0 {
                    RestyleKind::CascadeWithReplacements(restyle.hint)
                } else {
                    RestyleKind::CascadeOnly
                }
            },
            _ => RestyleKind::MatchAndCascade,
        }
    }

    /// The pending work, or nothing.
    pub fn ensure_restyle(&self) -> (restyle: RestyleData)
        ensures
            restyle == self.pending(),
    {
        match self.restyle {
            Some(restyle) => restyle,
            None => RestyleData::new(),
        }
    }

    /// Clears the hint and the request for a cascade, now that both have been served.
    /// Returns the hint to hand to the children.
    pub fn settle(&mut self) -> (propagated: StoredRestyleHint)
        ensures
            *final(self) == old(self).settled(),
            propagated == old(self).pending().hint.for_children(),
    {
        match self.restyle {
            Some(restyle) => {
                let propagated = restyle.hint.propagate();
                self.restyle = Some(
                    RestyleData { hint: StoredRestyleHint::empty(), recascade: false, ..restyle },
                );
                propagated
            },
            None => StoredRestyleHint::empty(),
        }
    }
}

} // verus!
