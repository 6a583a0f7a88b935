use style_traversal::context::{CurrentElementInfo, ThreadLocalStyleContext};
use style_traversal::data::{ElementData, ElementStyles, RestyleDamage, RestyleData, RestyleKind};
use style_traversal::restyle_hints::{RestyleHint, StoredRestyleHint};
use style_traversal::traversal::{
    cull_message, CullReason, LogBehavior, PerLevelTraversalData, TraversalDriver,
};

fn hint(restyle_self: bool, restyle_descendants: bool, replacements: u8) -> StoredRestyleHint {
    StoredRestyleHint { restyle_self, restyle_descendants, replacements }
}

fn styled(restyle: Option<RestyleData>) -> ElementData {
    let styles = ElementStyles { display_none: false, has_moz_binding: false, values: 7 };
    ElementData { styles: Some(styles), restyle }
}

fn pending(hint: StoredRestyleHint, recascade: bool, snapshot: Option<u64>) -> RestyleData {
    RestyleData { hint, recascade, damage: RestyleDamage::empty(), snapshot }
}

#[test]
fn empty_hint_asks_for_nothing() {
    assert!(StoredRestyleHint::empty().is_empty());
    assert_eq!(StoredRestyleHint::empty(), hint(false, false, 0));
    assert!(!hint(true, false, 0).is_empty());
    assert!(!hint(false, true, 0).is_empty());
    assert!(!hint(false, false, 4).is_empty());
}

#[test]
fn hints_for_descendants_do_not_affect_self() {
    assert!(hint(true, false, 0).affects_self());
    assert!(hint(false, false, 2).affects_self());
    assert!(!hint(false, true, 0).affects_self());
}

#[test]
fn inserting_a_hint_unites_the_two() {
    let mut both = hint(true, false, 0b0101);
    both.insert(&hint(false, true, 0b0011));
    assert_eq!(both, hint(true, true, 0b0111));
    both.insert(&StoredRestyleHint::empty());
    assert_eq!(both, hint(true, true, 0b0111));
}

#[test]
fn only_descendant_hints_propagate() {
    assert_eq!(hint(true, false, 3).propagate(), StoredRestyleHint::empty());
    assert_eq!(hint(false, true, 3).propagate(), hint(true, true, 0));
    assert_eq!(hint(true, true, 0).propagate(), StoredRestyleHint::self_and_descendants());
}

#[test]
fn stored_hint_drops_later_siblings() {
    let computed = RestyleHint {
        restyle_self: true,
        restyle_descendants: false,
        restyle_later_siblings: true,
        replacements: 9,
    };
    assert_eq!(computed.to_stored(), hint(true, false, 9));
}

#[test]
fn expanding_a_snapshot_adds_its_hint_and_drops_it() {
    let computed = RestyleHint {
        restyle_self: false,
        restyle_descendants: true,
        restyle_later_siblings: true,
        replacements: 1,
    };
    let mut data = pending(hint(true, false, 2), true, Some(11));
    assert!(data.expand_snapshot(computed));
    assert_eq!(data, pending(hint(true, true, 3), true, None));
}

#[test]
fn expanding_without_a_snapshot_changes_nothing() {
    let computed = RestyleHint {
        restyle_self: true,
        restyle_descendants: true,
        restyle_later_siblings: true,
        replacements: 0,
    };
    let mut data = pending(hint(false, false, 2), false, None);
    assert!(!data.expand_snapshot(computed));
    assert_eq!(data, pending(hint(false, false, 2), false, None));
}

#[test]
fn fresh_restyle_data_is_empty() {
    assert_eq!(RestyleData::new(), pending(StoredRestyleHint::empty(), false, None));
    assert_eq!(RestyleDamage::empty().bits, 0);
}

#[test]
fn element_data_without_styles_is_not_current() {
    let data = ElementData::new();
    assert_eq!(data, ElementData { styles: None, restyle: None });
    assert!(!data.has_styles() && !data.has_restyle() && !data.has_snapshot());
    assert!(!data.is_display_none());
    assert!(!data.has_current_styles());
    assert_eq!(data.restyle_kind(), RestyleKind::MatchAndCascade);
}

#[test]
fn styles_are_current_unless_the_element_itself_is_concerned() {
    let none = StoredRestyleHint::empty();
    assert!(styled(None).has_current_styles());
    assert!(styled(Some(RestyleData::new())).has_current_styles());
    assert!(styled(Some(pending(hint(false, true, 0), false, None))).has_current_styles());
    assert!(!styled(Some(pending(hint(true, false, 0), false, None))).has_current_styles());
    assert!(!styled(Some(pending(hint(false, false, 1), false, None))).has_current_styles());
    assert!(!styled(Some(pending(none, true, None))).has_current_styles());
    assert!(!styled(Some(pending(none, false, Some(3)))).has_current_styles());
    assert!(styled(Some(pending(none, false, Some(3)))).has_snapshot());
}

#[test]
fn restyle_kind_is_the_cheapest_that_suffices() {
    let replace = hint(false, true, 6);
    let rematch = hint(true, false, 6);
    assert_eq!(
        styled(Some(pending(rematch, true, None))).restyle_kind(),
        RestyleKind::MatchAndCascade
    );
    assert_eq!(
        styled(Some(pending(replace, true, None))).restyle_kind(),
        RestyleKind::CascadeWithReplacements(replace)
    );
    assert_eq!(
        styled(Some(pending(hint(false, true, 0), true, None))).restyle_kind(),
        RestyleKind::CascadeOnly
    );
}

#[test]
fn settling_clears_hint_and_recascade_and_keeps_damage() {
    let damaged = RestyleData {
        hint: hint(true, true, 5),
        recascade: true,
        damage: RestyleDamage { bits: 12 },
        snapshot: None,
    };
    let mut data = styled(Some(damaged));
    assert_eq!(data.settle(), StoredRestyleHint::self_and_descendants());
    let left = RestyleData {
        hint: StoredRestyleHint::empty(),
        recascade: false,
        damage: RestyleDamage { bits: 12 },
        snapshot: None,
    };
    assert_eq!(data, styled(Some(left)));

    let mut quiet = styled(None);
    assert_eq!(quiet.settle(), StoredRestyleHint::empty());
    assert_eq!(quiet, styled(None));
}

#[test]
fn ensure_restyle_gives_what_is_pending_or_nothing() {
    let some = pending(hint(false, true, 0), true, Some(4));
    assert_eq!(styled(Some(some)).ensure_restyle(), some);
    assert_eq!(styled(None).ensure_restyle(), RestyleData::new());
}

#[test]
fn display_none_is_read_from_the_styles() {
    let styles = ElementStyles { display_none: true, has_moz_binding: false, values: 1 };
    assert!(ElementData { styles: Some(styles), restyle: None }.is_display_none());
    assert!(!styled(None).is_display_none());
}

#[test]
fn worker_context_notes_the_current_element() {
    let mut context = ThreadLocalStyleContext::new();
    assert_eq!(context.current_element_info, None);
    assert_eq!(context.statistics.elements_traversed, 0);
    assert_eq!(context.statistics.elements_styled, 0);
    assert_eq!(context.statistics.elements_matched, 0);
    assert_eq!(context.statistics.styles_shared, 0);

    context.begin_element(5, &ElementData::new());
    assert_eq!(
        context.current_element_info,
        Some(CurrentElementInfo { element: 5, is_initial_style: true })
    );
    assert!(context.is_initial_style());

    context.begin_element(6, &styled(None));
    assert!(!context.is_initial_style());
    context.end_element();
    assert_eq!(context.current_element_info, None);
}

#[test]
fn log_behavior_decides_what_is_logged() {
    assert!(LogBehavior::MayLog.allow());
    assert!(!LogBehavior::DontLog.allow());
    let reason = Some(CullReason::DisplayNone);
    assert_eq!(cull_message(reason, LogBehavior::MayLog), reason);
    assert_eq!(cull_message(reason, LogBehavior::DontLog), None);
    assert_eq!(cull_message(None, LogBehavior::MayLog), None);
}

#[test]
fn parallel_driver_is_parallel() {
    assert!(TraversalDriver::Parallel.is_parallel());
    assert!(!TraversalDriver::Sequential.is_parallel());
}

#[test]
fn level_data_can_be_cloned() {
    let level = PerLevelTraversalData { current_dom_depth: Some(3) };
    assert_eq!(level.clone().current_dom_depth, Some(3));
}
