use mkwebfont::fonts::{FontStyle, FontWeight};
use mkwebfont::hashing::hash_fragment;
use mkwebfont::render::{extract_name, extract_version, subset_file_name, SubsetInfo, WebfontInfo};
use roaring::RoaringBitmap;

#[test]
fn name_keeps_alphanumerics() {
    assert_eq!(extract_name("Noto Sans CJK-JP"), "NotoSansCJKJP");
    assert_eq!(extract_name("a_b c!d"), "abcd");
}

#[test]
fn name_is_capped_at_twenty_bytes() {
    assert_eq!(extract_name("abcdefghijklmnopqrstuvwxyz"), "abcdefghijklmnopqrst");
    assert_eq!(extract_name(""), "");
}

#[test]
fn version_strips_prefix_and_dots() {
    assert_eq!(extract_version("Version 2.004; ttfautohint"), "2.004");
    assert_eq!(extract_version("version 1.0."), "1.0");
    assert_eq!(extract_version("3.1 build"), "3.1");
    assert_eq!(extract_version("...7..."), "7");
    assert_eq!(extract_version("beta"), "");
}

#[test]
fn version_is_capped() {
    assert_eq!(extract_version("1234567890123456789012345"), "12345678901234567890");
}

#[test]
fn file_name_of_regular_font() {
    let data = b"font data".to_vec();
    let name = subset_file_name("Noto Sans", "Regular", "Version 2.004", false, "latin", &data);
    assert_eq!(name, format!("NotoSans_2.004_latin_{}.woff2", hash_fragment(&data)));
}

#[test]
fn file_name_of_styled_and_variable_fonts() {
    let data = b"x".to_vec();
    let styled = subset_file_name("Noto Sans", "Bold Italic", "1.0", false, "cyrillic", &data);
    assert_eq!(styled, format!("NotoSans_BoldItalic_1.0_cyrillic_{}.woff2", hash_fragment(&data)));
    let variable = subset_file_name("Noto Sans", "Regular", "1.0", true, "greek", &data);
    assert_eq!(variable, format!("NotoSans_Variable_1.0_greek_{}.woff2", hash_fragment(&data)));
}

fn bitmap(values: &[u32]) -> RoaringBitmap {
    let mut b = RoaringBitmap::new();
    for &v in values {
        b.insert(v);
    }
    b
}

#[test]
fn stylesheet_rendering() {
    let a = SubsetInfo::new("Test", "Bold", "1.0", false, "b", bitmap(&[0x41, 0x42, 0x43, 0x50]), vec![2]);
    let b = SubsetInfo::new("Test", "Bold", "1.0", false, "a", bitmap(&[0x20]), vec![1]);
    let file_a = a.file_name().to_string();
    let file_b = b.file_name().to_string();
    let info = WebfontInfo::new("Test".to_string(), "Bold".to_string(), FontStyle::Regular, FontWeight::Bold, vec![a, b]);
    assert_eq!(info.subset_count(), 2);
    assert_eq!(info.font_family(), "Test");
    assert_eq!(info.font_style(), "Bold");
    // entries are ordered by file name
    let names: Vec<_> = info.subsets().iter().map(|s| s.file_name().to_string()).collect();
    let mut expected_order = vec![file_a.clone(), file_b.clone()];
    expected_order.sort();
    assert_eq!(names, expected_order);
    let css = info.render_css("/fonts/");
    let mut expected = String::new();
    for s in info.subsets() {
        let range = if s.name() == "b" { "U+41-43, U+50" } else { "U+20" };
        expected.push_str(&format!(
            "@font-face {{\n\tfont-family: \"Test\";\n\tfont-weight: bold;\n\tunicode-range: {range};\n\tsrc: url(\"/fonts/{}\") format(\"woff2\");\n}}\n",
            s.file_name()
        ));
    }
    assert_eq!(css, expected);
}

#[test]
fn subset_info_accessors() {
    let s = SubsetInfo::new("Fam", "Regular", "2", false, "n", bitmap(&[1, 2]), vec![9, 9]);
    assert_eq!(s.name(), "n");
    assert_eq!(s.woff2_data(), &[9, 9]);
    assert_eq!(s.subset(), &bitmap(&[1, 2]));
}
