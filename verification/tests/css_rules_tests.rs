use mkwebfont::css_rules::{parse_declarations, CssDeclaration, FontFamilyName};

fn family(name: &str) -> FontFamilyName {
    FontFamilyName::FamilyName(name.to_string())
}

#[test]
fn uninteresting_rules_give_nothing() {
    assert!(parse_declarations(&vec![], &vec![CssDeclaration::Other]).is_none());
    assert!(parse_declarations(&vec![], &vec![CssDeclaration::Content(None)]).is_none());
}

#[test]
fn font_family_drops_generic_names() {
    let r = parse_declarations(&vec![], &vec![CssDeclaration::FontFamily(vec![family("Noto Sans"), FontFamilyName::Generic, family("Arial")])]).unwrap();
    assert_eq!(r.stack, Some(vec!["Noto Sans".to_string(), "Arial".to_string()]));
    assert_eq!(r.is_displayed, None);
    assert_eq!(r.content, None);
}

#[test]
fn later_declarations_win() {
    let important = vec![CssDeclaration::Display { none: true }];
    let normal = vec![
        CssDeclaration::Font(vec![family("A")]),
        CssDeclaration::Display { none: false },
        CssDeclaration::FontFamily(vec![family("B")]),
        CssDeclaration::Content(Some("x".to_string())),
    ];
    let r = parse_declarations(&important, &normal).unwrap();
    assert_eq!(r.stack, Some(vec!["B".to_string()]));
    assert_eq!(r.is_displayed, Some(true));
    assert_eq!(r.content, Some("x".to_string()));
}

#[test]
fn display_none_hides() {
    let r = parse_declarations(&vec![], &vec![CssDeclaration::Display { none: true }]).unwrap();
    assert_eq!(r.is_displayed, Some(false));
}
