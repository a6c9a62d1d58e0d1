use mkwebfont::font_face_rules::{generate_font_face_rules, FontSource, SubsetSource};
use mkwebfont::fonts::FontStyle;

#[test]
fn one_rule_per_subset_in_order() {
    let fonts = vec![FontSource {
        family: "Inter".to_string(),
        style: FontStyle::Italic,
        weight_low: 100,
        weight_high: 900,
        subsets: vec![
            SubsetSource { ranges: vec![(0x20, 0x7e)], file_name: "inter-latin.woff2".to_string() },
            SubsetSource { ranges: vec![(0x400, 0x4ff), (0x500, 0x52f)], file_name: "inter-cyr.woff2".to_string() },
        ],
    }];
    let rules = generate_font_face_rules(&fonts, "/fonts");
    assert_eq!(rules.len(), 2);
    assert_eq!(rules[0].family, "Inter");
    assert!(rules[0].style == FontStyle::Italic);
    assert_eq!((rules[0].weight_low, rules[0].weight_high), (100, 900));
    assert_eq!(rules[0].ranges, vec![(0x20, 0x7e)]);
    assert_eq!(rules[0].url, "/fonts/inter-latin.woff2");
    assert_eq!(rules[1].ranges, vec![(0x400, 0x4ff), (0x500, 0x52f)]);
    assert_eq!(rules[1].url, "/fonts/inter-cyr.woff2");
}

#[test]
fn no_fonts_no_rules() {
    assert!(generate_font_face_rules(&vec![], "x").is_empty());
}
