use mkwebfont::selector_filter::{filter_selector, SelectorComponent as C, SelectorError};

#[test]
fn element_names_go_first_between_combinators() {
    // `.a div > p:hover::before` in parse order
    let parts = vec![C::Late(1), C::Early(2), C::Combinator(3), C::Early(4), C::PseudoClass, C::PseudoElement(5)];
    let f = filter_selector(&parts).ok().unwrap();
    assert_eq!(f.components, vec![C::Early(2), C::Late(1), C::Combinator(3), C::Early(4)]);
    assert!(f.is_conditional);
    assert_eq!(f.pseudo_element, Some(5));
}

#[test]
fn plain_selector_is_unconditional() {
    let f = filter_selector(&vec![C::Early(1), C::Late(2)]).ok().unwrap();
    assert_eq!(f.components, vec![C::Early(1), C::Late(2)]);
    assert!(!f.is_conditional);
    assert_eq!(f.pseudo_element, None);
}

#[test]
fn groups_make_rules_conditional_unless_empty() {
    assert!(filter_selector(&vec![C::Group(1, 2)]).ok().unwrap().is_conditional);
    assert!(!filter_selector(&vec![C::Group(1, 0)]).ok().unwrap().is_conditional);
    assert!(filter_selector(&vec![C::Has]).ok().unwrap().is_conditional);
}

#[test]
fn refused_selectors() {
    assert_eq!(filter_selector(&vec![C::Early(1), C::Scope]).err(), Some(SelectorError::ScopeUnsupported));
    assert_eq!(filter_selector(&vec![C::Unsupported, C::Scope]).err(), Some(SelectorError::ComponentUnsupported));
    assert_eq!(
        filter_selector(&vec![C::PseudoElement(1), C::PseudoElement(2)]).err(),
        Some(SelectorError::TwoPseudoElements)
    );
}
