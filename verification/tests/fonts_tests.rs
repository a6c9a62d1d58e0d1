use mkwebfont::fonts::{FontStyle, FontWeight};

#[test]
fn weight_from_style_names() {
    assert_eq!(FontWeight::infer("Regular"), FontWeight::Regular);
    assert_eq!(FontWeight::infer("Thin"), FontWeight::Numeric(100));
    assert_eq!(FontWeight::infer("Hairline Italic"), FontWeight::Numeric(100));
    assert_eq!(FontWeight::infer("Extra-Light"), FontWeight::Numeric(200));
    assert_eq!(FontWeight::infer("UltraLight"), FontWeight::Numeric(200));
    assert_eq!(FontWeight::infer("Medium"), FontWeight::Numeric(500));
    assert_eq!(FontWeight::infer("SemiBold"), FontWeight::Numeric(600));
    assert_eq!(FontWeight::infer("Demi Bold"), FontWeight::Numeric(600));
    assert_eq!(FontWeight::infer("ExtraBold"), FontWeight::Numeric(800));
    assert_eq!(FontWeight::infer("Ultra-Bold"), FontWeight::Numeric(800));
    assert_eq!(FontWeight::infer("ExtraBlack"), FontWeight::Numeric(950));
    assert_eq!(FontWeight::infer("Black"), FontWeight::Numeric(900));
    assert_eq!(FontWeight::infer("Heavy"), FontWeight::Numeric(900));
    assert_eq!(FontWeight::infer("Bold Italic"), FontWeight::Bold);
    assert_eq!(FontWeight::infer("Italic"), FontWeight::Regular);
}

#[test]
fn regular_wins_over_other_words() {
    assert_eq!(FontWeight::infer_from_style("Bold Regular"), FontWeight::Regular);
    assert_eq!(FontStyle::infer_from_style("Italic Regular"), FontStyle::Regular);
}

#[test]
fn style_from_style_names() {
    assert_eq!(FontStyle::infer("Italic"), FontStyle::Italic);
    assert_eq!(FontStyle::infer("Bold Oblique"), FontStyle::Oblique);
    assert_eq!(FontStyle::infer("Bold"), FontStyle::Regular);
    assert_eq!(FontStyle::infer_from_style("LIGHT ITALIC"), FontStyle::Italic);
}

#[test]
fn css_values() {
    assert_eq!(FontStyle::Regular.css_value(), "normal");
    assert_eq!(FontStyle::Italic.css_value(), "italic");
    assert_eq!(FontStyle::Oblique.css_value(), "oblique");
    assert_eq!(FontWeight::Regular.css_value(), "normal");
    assert_eq!(FontWeight::Bold.css_value(), "bold");
    assert_eq!(FontWeight::Numeric(350).css_value(), "350");
}

#[test]
fn subsets_drop_control_and_format_characters() {
    let mut chars = roaring::RoaringBitmap::new();
    for c in [0x07u32, 0x41, 0x42, 0xAD, 0x200B, 0x4E00] {
        chars.insert(c);
    }
    // U+0007 is a control character, U+00AD and U+200B are format characters.
    assert_eq!(mkwebfont::fonts::subset_chars(&chars), vec!['A', 'B', '\u{4E00}']);
}

fn record(axes: usize, family: &str, typo: &str, style: &str, glyphs: u32) -> mkwebfont::fonts::FontRecord {
    mkwebfont::fonts::FontRecord {
        glyph_count: glyphs,
        variation_axes: axes,
        family: family.to_string(),
        typographic_family: typo.to_string(),
        subfamily: style.to_string(),
        version: "Version 1.0".to_string(),
        codepoints: vec!['b', 'a', 'b'],
    }
}

#[test]
fn describe_static_font() {
    let d = mkwebfont::fonts::describe_font(&record(0, "Inter Bold", "Inter", "Bold Italic", 10)).unwrap();
    assert_eq!(d.font_family, "Inter Bold");
    assert_eq!(d.font_style, "Bold Italic");
    assert!(!d.is_variable);
    assert!(d.parsed_font_style == mkwebfont::fonts::FontStyle::Italic);
    assert!(d.parsed_font_weight == mkwebfont::fonts::FontWeight::Bold);
    assert_eq!(d.available_codepoints.iter().collect::<Vec<u32>>(), vec![0x61, 0x62]);
}

#[test]
fn describe_variable_font() {
    let d = mkwebfont::fonts::describe_font(&record(1, "Inter Thin", "Inter", "Thin", 10)).unwrap();
    assert_eq!(d.font_family, "Inter");
    assert!(d.is_variable);
    assert!(d.parsed_font_weight == mkwebfont::fonts::FontWeight::Regular);
    let e = mkwebfont::fonts::describe_font(&record(1, "Noto", "Inter", "Thin", 10)).unwrap();
    assert_eq!(e.font_family, "Noto");
}

#[test]
fn describe_font_without_glyphs() {
    assert!(mkwebfont::fonts::describe_font(&record(0, "A", "", "Regular", 0)).is_none());
}
