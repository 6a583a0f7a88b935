//! The context that styling runs in: which product it serves, what one worker keeps
//! between elements, and what the style engine hands back.

use vstd::prelude::*;

use crate::data::ElementData;
use crate::dom::NodeId;

verus! {

/// The product that the style system is built into.
#[derive(Clone, Copy, Debug, PartialEq, Eq, Structural)]
pub enum Product {
    /// Servo, which constructs flows on the way back up the tree.
    Servo,
    /// Gecko, which constructs frames in a pass of its own.
    Gecko,
}

/// What all workers of a traversal share.
#[derive(Clone, Copy, Debug, PartialEq, Eq, Structural)]
pub struct SharedStyleContext {
    /// The product that the style system is built into.
    pub product: Product,
    /// Whether layout starts from scratch each time. Only Servo knows this mode.
    pub nonincremental_layout: bool,
}

/// Counters of what a worker did.
#[derive(Clone, Copy, Debug, PartialEq, Eq, Structural)]
pub struct TraversalStatistics {
    /// Elements that were processed.
    pub elements_traversed: u32,
    /// Elements that got new styles.
    pub elements_styled: u32,
    /// Elements that went through selector matching.
    pub elements_matched: u32,
    /// Elements that took over the style of another element.
    pub styles_shared: u32,
}

/// What a worker knows of the element that it is processing.
#[derive(Clone, Copy, Debug, PartialEq, Eq, Structural)]
pub struct CurrentElementInfo {
    /// The element.
    pub element: NodeId,
    /// Whether the element had no styles when its processing began.
    pub is_initial_style: bool,
}

/// What one worker keeps for itself.
#[derive(Clone, Copy, Debug, PartialEq, Eq, Structural)]
pub struct ThreadLocalStyleContext {
    /// Counters of what the worker did.
    pub statistics: TraversalStatistics,
    /// The element between `begin_element` and `end_element`.
    pub current_element_info: Option<CurrentElementInfo>,
}

/// What selector matching found for an element.
#[derive(Clone, Copy, Debug, PartialEq, Eq, Structural)]
pub struct MatchResults {
    /// The key of the rule node for the element itself.
    pub primary: u64,
    /// The key of the rule nodes for its pseudo-elements.
    pub per_pseudo: u64,
    /// The relations that matching depended on, one bit for each.
    pub relations: u64,
    /// Whether the relations allow other elements to share the style.
    pub primary_is_shareable: bool,
}

impl SharedStyleContext {
    /// Whether every node has to be visited, whatever its state.
    pub open spec fn visits_everything(self) -> bool {
        self.product == Product::Servo && self.nonincremental_layout
    }
}

impl ThreadLocalStyleContext {
    /// A context that no work has been done in.
    pub fn new() -> (context: ThreadLocalStyleContext)
        ensures
            context == (ThreadLocalStyleContext {
                statistics: TraversalStatistics {
                    elements_traversed: 0,
                    elements_styled: 0,
                    elements_matched: 0,
                    styles_shared: 0,
                },
                current_element_info: None,
            }),
    {
        ThreadLocalStyleContext {
            statistics: TraversalStatistics {
                elements_traversed: 0,
                elements_styled: 0,
                elements_matched: 0,
                styles_shared: 0,
            },
            current_element_info: None,
        }
    }

    /// The context once the processing of `element`, which has `data`, has begun.
    pub open spec fn begun(self, element: NodeId, data: ElementData) -> ThreadLocalStyleContext {
        ThreadLocalStyleContext {
            current_element_info: Some(
                CurrentElementInfo { element, is_initial_style: data.styles is None },
            ),
            ..self
        }
    }

    /// The context once the processing of an element has ended.
    pub open spec fn ended(self) -> ThreadLocalStyleContext {
        ThreadLocalStyleContext { current_element_info: None, ..self }
    }

    /// Notes that the processing of `element`, which has `data`, begins.
    pub fn begin_element(&mut self, element: NodeId, data: &ElementData)
        ensures
            *final(self) == old(self).begun(element, *data),
    {
        self.current_element_info = Some(
            CurrentElementInfo { element, is_initial_style: !data.has_styles() },
        );
    }

    /// Notes that the processing of the current element ends.
    pub fn end_element(&mut self)
        ensures
            *final(self) == old(self).ended(),
    {
        self.current_element_info = None;
    }

    /// Whether the element that is being processed had no styles before.
    pub fn is_initial_style(&self) -> (initial: bool)
        requires
            self.current_element_info is Some,
        ensures
            initial == self.current_element_info->0.is_initial_style,
    {
        match self.current_element_info {
            Some(info) => info.is_initial_style,
            None => false,
        }
    }
}

} // verus!
